//! A picture of the screen: the check that it is one, its size, and what is told
//! of it.

use vstd::prelude::*;
use vstd::string::*;
use crate::device::{connection_text, model_text, Device};
use crate::number::{dec, push_dec};
use crate::text::{contains_text, lemma_contains_between};
use crate::util::{bytes_text, human_bytes};

verus! {

/// The bytes that a PNG file starts with.
pub const PNG_MAGIC: [u8; 8] = [0x89, 0x50, 0x4e, 0x47, 0x0d, 0x0a, 0x1a, 0x0a];

/// The name of the chunk that holds the size of a picture.
pub const HEADER_CHUNK: [u8; 4] = [0x49, 0x48, 0x44, 0x52];

/// Whether some bytes start as a PNG file does.
pub open spec fn is_png(data: Seq<u8>) -> bool {
    data.len() >= 8 && data.take(8) == seq![0x89u8, 0x50, 0x4e, 0x47, 0x0d, 0x0a, 0x1a, 0x0a]
}

/// The number that four bytes stand for, the highest of them first.
pub open spec fn number_at(data: Seq<u8>, i: int) -> int {
    data[i] * 0x100_0000 + data[i + 1] * 0x1_0000 + data[i + 2] * 0x100 + data[i + 3]
}

/// The width and the height that the header of a PNG file gives.
pub open spec fn dimensions(data: Seq<u8>) -> Option<(int, int)> {
    if is_png(data) && data.len() >= 24 && data.subrange(12, 16) == seq![
        0x49u8,
        0x48,
        0x44,
        0x52,
    ] {
        Some((number_at(data, 16), number_at(data, 20)))
    } else {
        None
    }
}

/// Whether some bytes start as a PNG file does.
pub fn starts_as_png(data: &[u8]) -> (r: bool)
    ensures
        r == is_png(data@),
{
    if data.len() < 8 {
        return false;
    }
    let mut i: usize = 0;
    while i < 8
        invariant
            i <= 8,
            data@.len() >= 8,
            forall|k: int| 0 <= k < i ==> data@[k] == PNG_MAGIC@[k],
        decreases 8 - i,
    {
        if data[i] != PNG_MAGIC[i] {
            assert(data@.take(8)[i as int] != PNG_MAGIC@[i as int]);
            return false;
        }
        i += 1;
    }
    assert(data@.take(8) =~= PNG_MAGIC@);
    true
}

fn number_of(data: &[u8], i: usize) -> (r: u32)
    requires
        i + 4 <= data@.len(),
    ensures
        r == number_at(data@, i as int),
{
    let end: usize = data.len();
    assert(i + 4 <= end);
    data[i] as u32 * 0x100_0000 + data[i + 1] as u32 * 0x1_0000 + data[i + 2] as u32 * 0x100
        + data[i + 3] as u32
}

/// The width and the height of a picture, where it is a PNG file with a header.
pub fn png_dimensions(data: &[u8]) -> (r: Option<(u32, u32)>)
    ensures
        r is Some == (dimensions(data@) is Some),
        r matches Some((w, h)) ==> dimensions(data@) == Some((w as int, h as int)),
{
    if !starts_as_png(data) || data.len() < 24 {
        return None;
    }
    let mut i: usize = 0;
    while i < 4
        invariant
            i <= 4,
            data@.len() >= 24,
            forall|k: int| 0 <= k < i ==> data@[12 + k] == HEADER_CHUNK@[k],
        decreases 4 - i,
    {
        if data[12 + i] != HEADER_CHUNK[i] {
            assert(data@.subrange(12, 16)[i as int] != HEADER_CHUNK@[i as int]);
            return None;
        }
        i += 1;
    }
    assert(data@.subrange(12, 16) =~= HEADER_CHUNK@);
    Some((number_of(data, 16), number_of(data, 20)))
}

/// What is said of bytes that are no picture.
pub open spec fn rejection_text(len: nat) -> Seq<char> {
    "抓取的数据不是有效 PNG（"@ + dec(len)
        + " 字节）；可能当前界面禁止截屏（DRM/安全窗口）或设备不支持 screencap"@
}

/// Refuses bytes that are no picture, so that they are not kept as one.
pub fn check_png(data: &[u8]) -> (r: Result<(), String>)
    ensures
        r is Ok == is_png(data@),
        r matches Err(e) ==> e@ == rejection_text(data@.len()),
{
    if starts_as_png(data) {
        Ok(())
    } else {
        let mut out = "抓取的数据不是有效 PNG（".to_string();
        push_dec(&mut out, data.len() as u64);
        out.append(" 字节）；可能当前界面禁止截屏（DRM/安全窗口）或设备不支持 screencap");
        Err(out)
    }
}

/// The name of the file that a picture is kept in.
pub fn file_name(stamp: &str) -> (r: String)
    ensures
        r@ == "screenshot-"@ + stamp@ + ".png"@,
{
    let mut out = "screenshot-".to_string();
    out.append(stamp);
    out.append(".png");
    out
}

/// The width and the height of a picture, as they are shown.
pub open spec fn resolution_text(data: Seq<u8>) -> Seq<char> {
    match dimensions(data) {
        Some((w, h)) => dec(w as nat) + "x"@ + dec(h as nat),
        None => "未知"@,
    }
}

fn resolution(data: &[u8]) -> (r: String)
    ensures
        r@ == resolution_text(data@),
{
    match png_dimensions(data) {
        Some((w, h)) => {
            let mut out = crate::number::dec_text(w as u64);
            out.append("x");
            push_dec(&mut out, h as u64);
            out
        },
        None => "未知".to_string(),
    }
}

/// What is told of a picture that was kept.
pub fn summary(device: &Device, path: &str, data: &[u8]) -> (r: String)
    ensures
        r@ == "── jj-android-device screenshot ───────────────────────────\ndevice serial="@
            + device.serial@ + " model="@ + model_text(device@) + " connection="@ + connection_text(
            device@,
        ) + "\nsaved      = "@ + path@ + "\nsize       = "@ + bytes_text(data@.len())
            + "  resolution="@ + resolution_text(data@)
            + "\n───────────────────────────────────────────────────────────\n"@,
{
    let mut out =
        "── jj-android-device screenshot ───────────────────────────\ndevice serial=".to_string();
    out.append(device.serial.as_str());
    out.append(" model=");
    out.append(device.model_label());
    out.append(" connection=");
    out.append(device.connection_label().as_str());
    out.append("\nsaved      = ");
    out.append(path);
    out.append("\nsize       = ");
    out.append(human_bytes(data.len() as u64).as_str());
    out.append("  resolution=");
    out.append(resolution(data).as_str());
    out.append("\n───────────────────────────────────────────────────────────\n");
    out
}

/// The four bytes that stand for a number, the highest of them first.
pub open spec fn number_bytes(n: u32) -> Seq<u8> {
    seq![
        (n / 0x100_0000) as u8,
        (n / 0x1_0000 % 0x100) as u8,
        (n / 0x100 % 0x100) as u8,
        (n % 0x100) as u8,
    ]
}

proof fn lemma_number_bytes(data: Seq<u8>, i: int, n: u32)
    requires
        0 <= i,
        i + 4 <= data.len(),
        data.subrange(i, i + 4) == number_bytes(n),
    ensures
        number_at(data, i) == n,
{
    let b = data.subrange(i, i + 4);
    assert(b[0] == data[i] && b[1] == data[i + 1] && b[2] == data[i + 2] && b[3] == data[i + 3]);
    assert(n == n / 0x100_0000 * 0x100_0000 + n / 0x1_0000 % 0x100 * 0x1_0000 + n / 0x100 % 0x100
        * 0x100 + n % 0x100);
}

/// The width and the height that are written in the header of a PNG file are read
/// back, whatever else the file holds.
pub proof fn law_dimensions_roundtrip(data: Seq<u8>, w: u32, h: u32)
    requires
        is_png(data),
        data.len() >= 24,
        data.subrange(12, 16) == HEADER_CHUNK@,
        data.subrange(16, 20) == number_bytes(w),
        data.subrange(20, 24) == number_bytes(h),
    ensures
        dimensions(data) == Some((w as int, h as int)),
{
    assert(HEADER_CHUNK@ =~= seq![0x49u8, 0x48, 0x44, 0x52]);
    lemma_number_bytes(data, 16, w);
    lemma_number_bytes(data, 20, h);
}

/// Bytes are taken for a picture exactly where they start with the eight bytes that a PNG
/// file starts with.
pub proof fn law_picture_is_told_by_its_bytes(data: Seq<u8>)
    ensures
        is_png(data) == (data.len() >= 8 && data[0] == 137 && data[1] == 80 && data[2] == 78
            && data[3] == 71 && data[4] == 13 && data[5] == 10 && data[6] == 26 && data[7] == 10),
{
    if data.len() >= 8 {
        let s = seq![0x89u8, 0x50, 0x4e, 0x47, 0x0d, 0x0a, 0x1a, 0x0a];
        let t = data.take(8);
        if is_png(data) {
            assert(t[0] == s[0] && t[1] == s[1] && t[2] == s[2] && t[3] == s[3]);
            assert(t[4] == s[4] && t[5] == s[5] && t[6] == s[6] && t[7] == s[7]);
        }
        if data[0] == 137 && data[1] == 80 && data[2] == 78 && data[3] == 71 && data[4] == 13
            && data[5] == 10 && data[6] == 26 && data[7] == 10 {
            assert(t =~= s);
        }
    }
}

/// A picture has a size exactly where its first chunk is the header, `IHDR`; the width and
/// the height are the numbers behind that, each of four bytes, the highest first.
pub proof fn law_size_stands_in_the_header(data: Seq<u8>)
    ensures
        dimensions(data) is Some == (is_png(data) && data.len() >= 24 && data[12] == 73 && data[13]
            == 72 && data[14] == 68 && data[15] == 82),
        dimensions(data) matches Some((w, h)) ==> w == ((data[16] * 256 + data[17]) * 256 + data[18])
            * 256 + data[19] && h == ((data[20] * 256 + data[21]) * 256 + data[22]) * 256 + data[23],
{
    if data.len() >= 24 {
        let s = seq![0x49u8, 0x48, 0x44, 0x52];
        let t = data.subrange(12, 16);
        if dimensions(data) is Some {
            assert(t[0] == s[0] && t[1] == s[1] && t[2] == s[2] && t[3] == s[3]);
        }
        if data[12] == 73 && data[13] == 72 && data[14] == 68 && data[15] == 82 {
            assert(t =~= s);
        }
    }
}

/// What is shown of the size of a picture is its width, an `x` and its height.
pub proof fn law_size_is_shown(data: Seq<u8>, w: nat, h: nat)
    ensures
        dimensions(data) == Some((w as int, h as int)) ==> resolution_text(data) == dec(w) + seq!['x']
            + dec(h),
        dimensions(data) is None ==> resolution_text(data) == "未知"@,
        contains_text(rejection_text(w), "（"@ + dec(w) + " 字节）"@),
{
    reveal_strlit("x");
    assert("x"@ =~= seq!['x']);
    reveal_strlit("抓取的数据不是有效 PNG（");
    reveal_strlit("（");
    reveal_strlit(" 字节）；可能当前界面禁止截屏（DRM/安全窗口）或设备不支持 screencap");
    reveal_strlit(" 字节）");
    let a = "抓取的数据不是有效 PNG（"@;
    let b = " 字节）；可能当前界面禁止截屏（DRM/安全窗口）或设备不支持 screencap"@;
    let part = "（"@ + dec(w) + " 字节）"@;
    assert(a =~= a.drop_last() + "（"@);
    assert(b =~= " 字节）"@ + b.skip(4));
    assert(rejection_text(w) =~= a.drop_last() + part + b.skip(4));
    lemma_contains_between(a.drop_last(), part, b.skip(4));
}

/// Bytes that are no picture are refused, and no others.
pub proof fn law_only_pictures_are_kept(data: &[u8], r: Result<(), String>)
    requires
        call_ensures(check_png, (data,), r),
    ensures
        r is Ok == (data@.len() >= 8 && data@[0] == 137 && data@[1] == 80 && data@[2] == 78
            && data@[3] == 71 && data@[4] == 13 && data@[5] == 10 && data@[6] == 26 && data@[7] == 10),
        r matches Err(e) ==> contains_text(e@, "（"@ + dec(data@.len()) + " 字节）"@),
{
    law_picture_is_told_by_its_bytes(data@);
    law_size_is_shown(data@, data@.len(), 0);
}

} // verus!
