use vstd::prelude::*;
use vstd::string::*;
use std::io::Read;

verus! {

/// The bytes that gzip data decompresses to, or `None` where it is corrupt or
/// truncated.
pub uninterp spec fn gunzip(data: Seq<u8>) -> Option<Seq<u8>>;

/// The text that bytes read as UTF-8 give, each invalid sequence replaced by
/// U+FFFD.
pub uninterp spec fn utf8_lossy(bytes: Seq<u8>) -> Seq<char>;

/// Relies on flate2::read::GzDecoder: reading it to the end yields the
/// decompressed bytes of a gzip stream, or an error where the stream is
/// corrupt.
#[verifier::external_body]
fn gzip_decode(data: &[u8]) -> (r: Option<Vec<u8>>)
    ensures
        r is None <==> gunzip(data@) is None,
        r matches Some(v) ==> gunzip(data@) == Some(v@),
{
    let mut out = Vec::new();
    match flate2::read::GzDecoder::new(data).read_to_end(&mut out) {
        Ok(_) => Some(out),
        Err(_) => None,
    }
}

/// Relies on String::from_utf8_lossy: never fails, replaces invalid
/// sequences, and keeps an empty input empty.
#[verifier::external_body]
fn lossy_text(bytes: &[u8]) -> (r: String)
    ensures
        r@ == utf8_lossy(bytes@),
        bytes@.len() == 0 ==> r@.len() == 0,
{
    String::from_utf8_lossy(bytes).into_owned()
}

/// Decompresses one archive; `None` where the archive is corrupt.
pub fn decompress(data: &[u8]) -> (r: Option<Vec<u8>>)
    ensures
        r is None <==> gunzip(data@) is None,
        r matches Some(v) ==> gunzip(data@) == Some(v@),
{
    gzip_decode(data)
}

/// Turns raw log bytes into text; never fails.
pub fn normalize_text(bytes: &[u8]) -> (r: String)
    ensures
        r@ == utf8_lossy(bytes@),
        bytes@.len() == 0 ==> r@.len() == 0,
{
    lossy_text(bytes)
}

/// `name` has the extension `ext`: the part after its last dot, where that
/// dot is not the name's first character.
pub open spec fn extension_is(name: Seq<char>, ext: Seq<char>) -> bool {
    exists|i: int|
        0 < i < name.len() && name[i] == '.' && (forall|j: int| i < j < name.len() ==> name[j] != '.')
            && name.subrange(i + 1, name.len() as int) == ext
}

/// Whether the file name `file_name` has the extension `extension`.
pub fn has_extension(file_name: &str, extension: &str) -> (r: bool)
    ensures
        r == extension_is(file_name@, extension@),
{
    let len = file_name.unicode_len();
    let mut i: usize = len;
    while i > 0
        invariant
            i <= len,
            len == file_name@.len(),
            forall|j: int| i <= j < len ==> file_name@[j] != '.',
        decreases i,
    {
        if file_name.get_char(i - 1) == '.' {
            let d = i - 1;
            if d == 0 {
                assert forall|k: int|
                    !(0 < k < len && file_name@[k] == '.' && (forall|j: int|
                        k < j < len ==> file_name@[j] != '.')) by {
                    if 0 < k < len && file_name@[k] == '.' {
                        assert(file_name@[0] == '.');
                    }
                }
                return false;
            }
            let tail = file_name.substring_char(i, len);
            let ext_len = extension.unicode_len();
            let mut same = ext_len == len - i;
            let mut k: usize = 0;
            while same && k < ext_len
                invariant
                    same ==> ext_len == len - i,
                    ext_len == extension@.len(),
                    tail@ == file_name@.subrange(i as int, len as int),
                    tail@.len() == len - i,
                    i <= len,
                    k <= ext_len,
                    same ==> forall|m: int| 0 <= m < k ==> tail@[m] == extension@[m],
                    !same ==> tail@ != extension@,
                decreases ext_len - k,
            {
                if tail.get_char(k) != extension.get_char(k) {
                    assert(tail@[k as int] != extension@[k as int]);
                    same = false;
                    k = ext_len;
                } else {
                    k = k + 1;
                }
            }
            if same {
                assert(tail@ =~= extension@);
            }
            assert(!same ==> tail@ != extension@);
            proof {
                assert forall|k: int|
                    0 < k < len && file_name@[k] == '.' && (forall|j: int|
                        k < j < len ==> file_name@[j] != '.') implies k == d by {
                    if k < d {
                        assert(file_name@[d as int] == '.');
                    }
                }
            }
            return same;
        }
        i = i - 1;
    }
    false
}

} // verus!
