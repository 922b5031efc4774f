use vstd::prelude::*;
use vstd::string::*;

verus! {

/// The instruction put before every chunk of log sent for summarising.
pub const PROMPT_PREAMBLE: &'static str = "Filter the log to only keep time, player chat, player events and player commands. Ignore thirst and disease. \n";

/// The combined size allowed for one request and its response, counted in
/// characters.
pub const TOTAL_BUDGET: usize = 2048;

/// The pieces of `parts`, joined in order.
pub open spec fn join_all(parts: Seq<Seq<char>>) -> Seq<char>
    decreases parts.len(),
{
    if parts.len() == 0 {
        Seq::empty()
    } else {
        join_all(parts.drop_last()) + parts.last()
    }
}

/// `ceil(len / inc)`.
pub open spec fn chunk_count(len: int, inc: int) -> int {
    (len + inc - 1) / inc
}

/// What one response adds to the summary: its text, or nothing.
pub open spec fn contribution(r: Option<String>) -> Seq<char> {
    match r {
        Some(s) => s@,
        None => Seq::empty(),
    }
}

/// How many characters of log go into one request: half the budget, less the
/// preamble.
pub fn input_increment(total_budget: usize, preamble_len: usize) -> (r: usize)
    requires
        preamble_len < total_budget / 2,
    ensures
        r == total_budget / 2 - preamble_len,
        r > 0,
{
    total_budget / 2 - preamble_len
}

/// How large a response may be: what the budget leaves after the input.
pub fn output_increment(total_budget: usize, input_inc: usize) -> (r: usize)
    requires
        input_inc <= total_budget,
    ensures
        r == total_budget - input_inc,
{
    total_budget - input_inc
}

proof fn lemma_count(len: int, inc: int, k: int)
    requires
        inc > 0,
        len >= 0,
        k >= 0,
        k * inc >= len,
        k == 0 || (k - 1) * inc < len,
    ensures
        k == chunk_count(len, inc),
{
    if k == 0 {
        assert(len == 0);
        assert((inc - 1) / inc == 0) by (nonlinear_arith)
            requires inc > 0;
    } else {
        assert((len + inc - 1) / inc == k) by (nonlinear_arith)
            requires inc > 0, k * inc >= len, (k - 1) * inc < len, k > 0;
    }
}

/// Cuts `text` into consecutive windows of `inc` characters; the last may be
/// shorter. Joined in order they give back `text`.
pub fn chunk_slices(text: &str, inc: usize) -> (r: Vec<String>)
    requires
        inc > 0,
    ensures
        r@.len() == chunk_count(text@.len() as int, inc as int),
        join_all(r@.map_values(|s: String| s@)) == text@,
        forall|m: int| 0 <= m < r@.len() - 1 ==> #[trigger] r@[m]@.len() == inc,
        r@.len() > 0 ==> 0 < r@.last()@.len() <= inc,
        is_window_partition(r@.map_values(|s: String| s@), inc as int),
{
    let len = text.unicode_len();
    let mut out: Vec<String> = Vec::new();
    let mut pos: usize = 0;
    while pos < len
        invariant
            len == text@.len(),
            inc > 0,
            pos <= len,
            join_all(out@.map_values(|s: String| s@)) == text@.subrange(0, pos as int),
            forall|m: int| 0 <= m < out@.len() - 1 ==> #[trigger] out@[m]@.len() == inc,
            out@.len() > 0 ==> 0 < out@.last()@.len() <= inc,
            pos < len ==> pos == out@.len() * inc,
            pos < len ==> forall|m: int| 0 <= m < out@.len() ==> #[trigger] out@[m]@.len() == inc,
            pos == len ==> out@.len() * inc >= len,
            out@.len() == 0 || (out@.len() - 1) * inc < pos,
        decreases len - pos,
    {
        let end: usize = if len - pos <= inc { len } else { pos + inc };
        let piece = String::from_str(text.substring_char(pos, end));
        let ghost before = out@;
        out.push(piece);
        proof {
            let views = out@.map_values(|s: String| s@);
            assert(views.drop_last() =~= before.map_values(|s: String| s@));
            assert(text@.subrange(0, end as int) =~= text@.subrange(0, pos as int) + text@.subrange(
                pos as int,
                end as int,
            ));
            let a = out@.len() as int;
            let b = before.len() as int;
            let w = inc as int;
            assert(a * w == b * w + w) by (nonlinear_arith)
                requires a == b + 1;
            assert((a - 1) * w == b * w);
            assert forall|m: int| 0 <= m < out@.len() && end < len implies #[trigger] out@[m]@.len() == inc by {
                if m < before.len() {
                    assert(out@[m] == before[m]);
                }
            }
            assert forall|m: int| 0 <= m < out@.len() - 1 implies #[trigger] out@[m]@.len() == inc by {
                if m < before.len() - 1 {
                    assert(out@[m] == before[m]);
                } else {
                    assert(out@[m] == before.last());
                }
            }
        }
        pos = end;
    }
    proof {
        if len == 0 {
            assert(out@.len() == 0);
        }
        lemma_count(len as int, inc as int, out@.len() as int);
        let views = out@.map_values(|s: String| s@);
        assert forall|m: int| 0 <= m < views.len() - 1 implies #[trigger] views[m].len() == inc by {
            assert(out@[m]@.len() == inc);
        }
    }
    out
}

/// The text of one request: the preamble, then the chunk.
pub fn build_prompt(preamble: &str, chunk: &str) -> (r: String)
    ensures
        r@ == preamble@ + chunk@,
{
    let mut p = String::from_str(preamble);
    p.append(chunk);
    p
}

/// Joins the responses in order; one without text adds nothing and leaves no
/// gap.
pub fn assemble(responses: &Vec<Option<String>>) -> (r: String)
    ensures
        r@ == join_all(responses@.map_values(|x: Option<String>| contribution(x))),
{
    let ghost parts = responses@.map_values(|x: Option<String>| contribution(x));
    let mut out = String::new();
    let mut k: usize = 0;
    while k < responses.len()
        invariant
            k <= responses@.len(),
            parts == responses@.map_values(|x: Option<String>| contribution(x)),
            out@ == join_all(parts.take(k as int)),
        decreases responses.len() - k,
    {
        assert(parts.take(k + 1).drop_last() =~= parts.take(k as int));
        match &responses[k] {
            Some(s) => out.append(s.as_str()),
            None => {},
        }
        assert(out@ =~= join_all(parts.take(k + 1)));
        k = k + 1;
    }
    assert(parts.take(k as int) =~= parts);
    out
}

} // verus!

verus! {

/// `parts` is a partition of some text into windows of `inc` characters, the
/// last one possibly shorter but never empty.
pub open spec fn is_window_partition(parts: Seq<Seq<char>>, inc: int) -> bool {
    &&& forall|m: int| 0 <= m < parts.len() - 1 ==> #[trigger] parts[m].len() == inc
    &&& parts.len() > 0 ==> 0 < parts.last().len() <= inc
}

proof fn lemma_join_len(parts: Seq<Seq<char>>, inc: int)
    requires
        parts.len() > 0,
        is_window_partition(parts, inc),
    ensures
        join_all(parts).len() == (parts.len() - 1) * inc + parts.last().len(),
    decreases parts.len(),
{
    let rest = parts.drop_last();
    assert(join_all(parts) == join_all(rest) + parts.last());
    if rest.len() == 0 {
        assert(join_all(rest).len() == 0);
    } else {
        assert(is_window_partition(rest, inc)) by {
            assert forall|m: int| 0 <= m < rest.len() - 1 implies #[trigger] rest[m].len() == inc by {
                assert(rest[m] == parts[m]);
            }
            assert(rest.last() == parts[parts.len() - 2]);
        }
        lemma_join_len(rest, inc);
        assert(rest.last() == parts[parts.len() - 2]);
        assert(parts[parts.len() - 2].len() == inc);
        let n = parts.len() as int;
        assert((n - 2) * inc + inc == (n - 1) * inc) by (nonlinear_arith);
    }
}

/// The windows of a text are fixed by the text and the window size alone: two
/// partitions of the same text into windows of the same size are equal, so
/// repeated runs over an unchanged log issue the very same requests.
pub proof fn lemma_windows_unique(a: Seq<Seq<char>>, b: Seq<Seq<char>>, inc: int)
    requires
        inc > 0,
        is_window_partition(a, inc),
        is_window_partition(b, inc),
        join_all(a) == join_all(b),
    ensures
        a == b,
    decreases a.len() + b.len(),
{
    if a.len() == 0 || b.len() == 0 {
        if a.len() > 0 {
            lemma_join_len(a, inc);
            assert((a.len() - 1) * inc >= 0) by (nonlinear_arith)
                requires a.len() >= 1, inc > 0;
        }
        if b.len() > 0 {
            lemma_join_len(b, inc);
            assert((b.len() - 1) * inc >= 0) by (nonlinear_arith)
                requires b.len() >= 1, inc > 0;
        }
        assert(a =~= b);
    } else {
        lemma_join_len(a, inc);
        lemma_join_len(b, inc);
        let na = a.len() as int;
        let nb = b.len() as int;
        let la = a.last().len() as int;
        let lb = b.last().len() as int;
        assert(na == nb && la == lb) by (nonlinear_arith)
            requires
                (na - 1) * inc + la == (nb - 1) * inc + lb,
                0 < la <= inc,
                0 < lb <= inc,
                na >= 1,
                nb >= 1,
                inc > 0,
        ;
        let total = join_all(a);
        assert(a.last() =~= total.subrange(total.len() - la, total.len() as int));
        assert(b.last() =~= total.subrange(total.len() - lb, total.len() as int));
        assert(join_all(a.drop_last()) =~= total.subrange(0, total.len() - la));
        assert(join_all(b.drop_last()) =~= total.subrange(0, total.len() - lb));
        let ra = a.drop_last();
        let rb = b.drop_last();
        assert(is_window_partition(ra, inc)) by {
            assert forall|m: int| 0 <= m < ra.len() - 1 implies #[trigger] ra[m].len() == inc by {
                assert(ra[m] == a[m]);
            }
            if ra.len() > 0 {
                assert(ra.last() == a[na - 2]);
            }
        }
        assert(is_window_partition(rb, inc)) by {
            assert forall|m: int| 0 <= m < rb.len() - 1 implies #[trigger] rb[m].len() == inc by {
                assert(rb[m] == b[m]);
            }
            if rb.len() > 0 {
                assert(rb.last() == b[nb - 2]);
            }
        }
        lemma_windows_unique(ra, rb, inc);
        assert(a =~= ra.push(a.last()));
        assert(b =~= rb.push(b.last()));
    }
}

} // verus!
