use vstd::prelude::*;
use vstd::string::*;

verus! {

/// The marker that tags a log entry as informational.
pub open spec fn info_marker() -> Seq<char> {
    seq!['[', 'S', 'e', 'r', 'v', 'e', 'r', ' ', 't', 'h', 'r', 'e', 'a', 'd', '/', 'I', 'N', 'F', 'O', ']']
}

/// `needle` occurs in `hay` starting at index `i`.
pub open spec fn occurs_at(hay: Seq<char>, needle: Seq<char>, i: int) -> bool {
    0 <= i && i + needle.len() <= hay.len() && hay.subrange(i, i + needle.len()) == needle
}

/// `sub` stands somewhere in `s` as a contiguous run.
pub open spec fn is_substring(sub: Seq<char>, s: Seq<char>) -> bool {
    exists|a: int| 0 <= a && a + sub.len() <= s.len() && #[trigger] s.subrange(a, a + sub.len()) == sub
}

pub open spec fn contains_seq(hay: Seq<char>, needle: Seq<char>) -> bool {
    exists|i: int| occurs_at(hay, needle, i)
}

/// Whether `hay` holds `needle` at index `i`, checked character by character.
fn matches_at(hay: &str, hay_len: usize, needle: &str, needle_len: usize, i: usize) -> (r: bool)
    requires
        hay_len == hay@.len(),
        needle_len == needle@.len(),
    ensures
        r == occurs_at(hay@, needle@, i as int),
{
    if i > hay_len || needle_len > hay_len - i {
        return false;
    }
    let mut k: usize = 0;
    while k < needle_len
        invariant
            i + needle_len <= hay_len,
            hay_len == hay@.len(),
            needle_len == needle@.len(),
            k <= needle_len,
            forall|j: int| 0 <= j < k ==> hay@[i + j] == needle@[j],
        decreases needle_len - k,
    {
        if hay.get_char(i + k) != needle.get_char(k) {
            assert(hay@.subrange(i as int, i + needle_len)[k as int] != needle@[k as int]);
            return false;
        }
        k = k + 1;
    }
    assert(hay@.subrange(i as int, i + needle_len) =~= needle@);
    true
}

} // verus!

verus! {

/// The marker of the first line logged once startup has finished.
pub open spec fn done_marker() -> Seq<char> {
    info_marker() + seq![':', ' ', 'D', 'o', 'n', 'e']
}

/// The index of the first occurrence of `needle` in `hay`, where there is one.
pub open spec fn first_occurrence(hay: Seq<char>, needle: Seq<char>) -> int {
    choose|i: int| occurs_at(hay, needle, i) && forall|j: int| 0 <= j < i ==> !occurs_at(hay, needle, j)
}

/// The informational segments of `segs`, joined in order with no separator.
pub open spec fn join_info(segs: Seq<Seq<char>>) -> Seq<char>
    decreases segs.len(),
{
    if segs.len() == 0 {
        Seq::empty()
    } else {
        let last = segs.last();
        join_info(segs.drop_last()) + if contains_seq(last, info_marker()) {
            last
        } else {
            Seq::empty()
        }
    }
}

/// `s` with everything before the first steady-state marker removed, or `s`
/// itself when the marker never occurs.
pub open spec fn trim_startup(s: Seq<char>) -> Seq<char> {
    if contains_seq(s, done_marker()) {
        s.subrange(first_occurrence(s, done_marker()), s.len() as int)
    } else {
        s
    }
}

/// What the filter keeps of a log already split on its timestamps.
pub open spec fn filtered_segments(segs: Seq<Seq<char>>) -> Seq<char> {
    trim_startup(join_info(segs))
}

/// The index of the first occurrence of `needle` in `hay`.
fn find_first(hay: &str, needle: &str) -> (r: Option<usize>)
    ensures
        r is None ==> !contains_seq(hay@, needle@),
        r matches Some(i) ==> occurs_at(hay@, needle@, i as int) && i as int
            == first_occurrence(hay@, needle@),
{
    let hay_len = hay.unicode_len();
    let needle_len = needle.unicode_len();
    if needle_len == 0 {
        let ghost h = hay@;
        let ghost n = needle@;
        assert(h.subrange(0, 0) =~= n);
        assert(occurs_at(h, n, 0));
        let ghost f = first_occurrence(h, n);
        assert(occurs_at(h, n, f) && forall|j: int| 0 <= j < f ==> !occurs_at(h, n, j));
        assert(f == 0) by {
            if f > 0 {
                assert(!occurs_at(h, n, 0));
            }
        }
        return Some(0);
    }
    if needle_len > hay_len {
        assert forall|j: int| !occurs_at(hay@, needle@, j) by {}
        return None;
    }
    let mut i: usize = 0;
    while i <= hay_len - needle_len
        invariant
            hay_len == hay@.len(),
            needle_len == needle@.len(),
            0 < needle_len <= hay_len,
            i <= hay_len - needle_len + 1,
            forall|j: int| 0 <= j < i ==> !occurs_at(hay@, needle@, j),
        decreases hay_len - needle_len + 1 - i,
    {
        if matches_at(hay, hay_len, needle, needle_len, i) {
            let ghost h = hay@;
            let ghost n = needle@;
            assert(occurs_at(h, n, i as int) && forall|j: int| 0 <= j < i ==> !occurs_at(h, n, j));
            let ghost f = first_occurrence(h, n);
            assert(occurs_at(h, n, f) && forall|j: int| 0 <= j < f ==> !occurs_at(h, n, j));
            assert(f == i as int) by {
                if f < i as int {
                    assert(!occurs_at(h, n, f));
                } else if f > i as int {
                    assert(!occurs_at(h, n, i as int));
                }
            }
            return Some(i);
        }
        i = i + 1;
    }
    assert forall|j: int| !occurs_at(hay@, needle@, j) by {
        if 0 <= j < i {
        } else if j >= i {
            assert(j + needle@.len() > hay@.len());
        }
    }
    None
}

/// Whether a log entry is tagged as informational.
pub fn is_info_msg(msg: &str) -> (r: bool)
    ensures
        r == contains_seq(msg@, info_marker()),
{
    let marker = "[Server thread/INFO]";
    proof {
        reveal_strlit("[Server thread/INFO]");
    }
    assert(marker@ =~= info_marker());
    find_first(msg, marker).is_some()
}

/// Joins the informational segments in order and drops the startup chatter
/// that precedes the steady-state marker.
pub fn filter_segments(segments: &Vec<String>) -> (r: String)
    ensures
        r@ == filtered_segments(segments@.map_values(|s: String| s@)),
        (forall|k: int| 0 <= k < segments@.len() ==> !contains_seq(segments@[k]@, info_marker()))
            ==> r@.len() == 0,
{
    let ghost segs = segments@.map_values(|s: String| s@);
    let mut joined = String::new();
    let mut k: usize = 0;
    while k < segments.len()
        invariant
            k <= segments@.len(),
            segs == segments@.map_values(|s: String| s@),
            joined@ == join_info(segs.take(k as int)),
            (forall|m: int| 0 <= m < k ==> !contains_seq(segs[m], info_marker())) ==> joined@.len() == 0,
        decreases segments.len() - k,
    {
        assert(segs.take(k + 1).drop_last() =~= segs.take(k as int));
        assert(segs[k as int] == segments@[k as int]@);
        if is_info_msg(segments[k].as_str()) {
            joined.append(segments[k].as_str());
        }
        k = k + 1;
    }
    assert(segs.take(k as int) =~= segs);
    let done = "[Server thread/INFO]: Done";
    proof {
        reveal_strlit("[Server thread/INFO]: Done");
    }
    assert(done@ =~= done_marker());
    match find_first(joined.as_str(), done) {
        Some(pos) => {
            let len = joined.as_str().unicode_len();
            let rest = joined.as_str().substring_char(pos, len);
            String::from_str(rest)
        },
        None => joined,
    }
}

} // verus!

verus! {

/// The pieces of `text` between the matches of `pattern`, or `None` where the
/// regex engine refuses `pattern`.
pub uninterp spec fn regex_split(pattern: Seq<char>, text: Seq<char>) -> Option<Seq<Seq<char>>>;

/// Relies on regex::Regex::new and regex::Regex::split: the pieces of the
/// haystack between the matches, in order, which depend on the pattern and the
/// haystack alone.
#[verifier::external_body]
fn split_on_pattern(pattern: &str, text: &str) -> (r: Option<Vec<String>>)
    ensures
        r is None <==> regex_split(pattern@, text@) is None,
        r matches Some(v) ==> regex_split(pattern@, text@) == Some(v@.map_values(|s: String| s@)),
        r matches Some(v) ==> forall|k: int|
            0 <= k < v@.len() ==> is_substring(#[trigger] v@[k]@, text@),
{
    match regex::Regex::new(pattern) {
        Ok(re) => Some(re.split(text).map(|p| p.to_string()).collect()),
        Err(_) => None,
    }
}

/// The timestamp that opens each log entry, with the whitespace after it.
pub open spec fn timestamp_pattern() -> Seq<char> {
    seq!['\\', '[', '\\', 'd', '{', '2', '}', ':', '\\', 'd', '{', '2', '}', ':', '\\', 'd', '{', '2',
        '}', '\\', ']', '\\', 's', '+']
}

/// Filters a log: splits it on its timestamps, keeps the informational
/// entries and drops what was logged before startup finished. `None` only
/// where the regex engine refuses the timestamp pattern.
pub fn filter_log_messages(messages: &str) -> (r: Option<String>)
    ensures
        r is None <==> regex_split(timestamp_pattern(), messages@) is None,
        r matches Some(out) ==> out@ == filtered_segments(
            regex_split(timestamp_pattern(), messages@)->Some_0,
        ),
{
    let pattern = "\\[\\d{2}:\\d{2}:\\d{2}\\]\\s+";
    proof {
        reveal_strlit("\\[\\d{2}:\\d{2}:\\d{2}\\]\\s+");
    }
    assert(pattern@ =~= timestamp_pattern());
    match split_on_pattern(pattern, messages) {
        Some(segments) => Some(filter_segments(&segments)),
        None => None,
    }
}

} // verus!

verus! {

proof fn lemma_substring_keeps_absence(sub: Seq<char>, s: Seq<char>, needle: Seq<char>)
    requires
        is_substring(sub, s),
        !contains_seq(s, needle),
    ensures
        !contains_seq(sub, needle),
{
    let a = choose|a: int| 0 <= a && a + sub.len() <= s.len() && #[trigger] s.subrange(a, a + sub.len()) == sub;
    assert forall|i: int| !occurs_at(sub, needle, i) by {
        if occurs_at(sub, needle, i) {
            assert(s.subrange(a + i, a + i + needle.len()) =~= sub.subrange(i, i + needle.len()));
            assert(occurs_at(s, needle, a + i));
        }
    }
}

/// A log in which no entry is tagged as informational filters to nothing.
pub proof fn lemma_no_info_filters_to_empty(messages: Seq<char>, segments: Seq<Seq<char>>)
    requires
        !contains_seq(messages, info_marker()),
        regex_split(timestamp_pattern(), messages) == Some(segments),
        forall|k: int| 0 <= k < segments.len() ==> is_substring(#[trigger] segments[k], messages),
    ensures
        filtered_segments(segments).len() == 0,
{
    lemma_join_without_info(segments, messages);
    assert(!contains_seq(Seq::<char>::empty(), done_marker()));
}

proof fn lemma_join_without_info(segments: Seq<Seq<char>>, messages: Seq<char>)
    requires
        !contains_seq(messages, info_marker()),
        forall|k: int| 0 <= k < segments.len() ==> is_substring(#[trigger] segments[k], messages),
    ensures
        join_info(segments) == Seq::<char>::empty(),
    decreases segments.len(),
{
    if segments.len() > 0 {
        let last = segments.last();
        assert(is_substring(segments[segments.len() - 1], messages));
        lemma_substring_keeps_absence(last, messages, info_marker());
        let rest = segments.drop_last();
        assert forall|k: int| 0 <= k < rest.len() implies is_substring(#[trigger] rest[k], messages) by {
            assert(rest[k] == segments[k]);
        }
        lemma_join_without_info(rest, messages);
        assert(join_info(segments) =~= Seq::<char>::empty());
    }
}

} // verus!
