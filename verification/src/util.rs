//! Small helpers shared by the runtime.
use vstd::prelude::*;
use std::time::Duration;

verus! {

/// The duration that `Duration::from_secs(secs)` returns.
pub uninterp spec fn duration_of_secs(secs: u64) -> Duration;

/// Calls `Duration::from_secs`, which builds a duration of `secs` whole
/// seconds; its value is named, not described.
#[verifier::external_body]
fn duration_from_secs(secs: u64) -> (d: Duration)
    ensures
        d == duration_of_secs(secs),
{
    Duration::from_secs(secs)
}

/// How long the runtime waits by default for services to stop: ten seconds.
pub open spec fn default_timeout() -> Duration {
    duration_of_secs(10)
}

/// How long the runtime waits by default for services to stop.
pub fn default_shutdown_timeout() -> (d: Duration)
    ensures
        d == default_timeout(),
{
    duration_from_secs(10)
}

/// Calls `String::push_str`, which appends `t` to `s`.
#[verifier::external_body]
pub(crate) fn append_text(s: &mut String, t: &str)
    ensures
        final(s)@ == old(s)@ + t@,
{
    s.push_str(t)
}

/// How `{:?}` writes a string: in double quotes, with characters escaped as
/// `str::escape_debug` does.
pub uninterp spec fn debug_quoted(s: Seq<char>) -> Seq<char>;

/// Calls `<str as Debug>::fmt` (through `format!("{:?}", ..)`); its text is
/// named, not described.
#[verifier::external_body]
pub(crate) fn quote_text(t: &str) -> (r: String)
    ensures
        r@ == debug_quoted(t@),
{
    format!("{:?}", t)
}

/// The character of a decimal digit.
pub open spec fn digit_char(d: nat) -> char {
    (48 + d) as char
}

/// The decimal digits of `n`, most significant first, without sign or
/// leading zeros.
pub open spec fn decimal_digits(n: nat) -> Seq<char>
    decreases n,
{
    if n < 10 {
        seq![digit_char(n)]
    } else {
        decimal_digits(n / 10).push(digit_char(n % 10))
    }
}

/// Calls `<usize as ToString>::to_string`, which writes `n` in decimal.
#[verifier::external_body]
pub(crate) fn decimal_text(n: usize) -> (r: String)
    ensures
        r@ == decimal_digits(n as nat),
{
    n.to_string()
}

/// The views of a sequence of strings, in order.
pub open spec fn string_views(v: Seq<String>) -> Seq<Seq<char>> {
    v.map_values(|s: String| s@)
}

/// `xs` with every element after its first occurrence removed; the order of
/// first occurrences is kept.
pub open spec fn dedup_first<A>(xs: Seq<A>) -> Seq<A> {
    xs.remove_duplicates(Seq::empty())
}

/// One step of first-occurrence deduplication: appending `x` to the input
/// appends it to the output exactly when it has not been seen before.
pub proof fn lemma_dedup_first_push<A>(xs: Seq<A>, x: A)
    ensures
        xs.contains(x) ==> dedup_first(xs.push(x)) == dedup_first(xs),
        !xs.contains(x) ==> dedup_first(xs.push(x)) == dedup_first(xs).push(x),
        dedup_first(xs).contains(x) <==> xs.contains(x),
{
    xs.lemma_remove_duplicates_append(x, Seq::empty());
    xs.lemma_remove_duplicates_properties(Seq::empty());
    assert(xs + Seq::<A>::empty() =~= xs);
    assert(xs + seq![x] =~= xs.push(x));
    assert(dedup_first(xs) + seq![x] =~= dedup_first(xs).push(x));
}

/// Deduplicated output never holds an element twice.
pub proof fn lemma_dedup_first_no_duplicates<A>(xs: Seq<A>)
    ensures
        dedup_first(xs).no_duplicates(),
    decreases xs.len(),
{
    if xs.len() > 0 {
        let init = xs.drop_last();
        lemma_dedup_first_no_duplicates(init);
        lemma_dedup_first_push(init, xs.last());
        assert(init.push(xs.last()) =~= xs);
    }
}

/// Deduplication keeps exactly the elements of its input.
pub proof fn lemma_dedup_first_same_elements<A>(xs: Seq<A>)
    ensures
        forall|x: A| #[trigger] dedup_first(xs).contains(x) <==> xs.contains(x),
{
    xs.lemma_remove_duplicates_properties(Seq::empty());
    assert(xs + Seq::<A>::empty() =~= xs);
}

/// Deduplication leaves a sequence without repeats unchanged, so applying it
/// twice is the same as applying it once.
pub proof fn lemma_dedup_first_idempotent<A>(xs: Seq<A>)
    ensures
        xs.no_duplicates() ==> dedup_first(xs) == xs,
        dedup_first(dedup_first(xs)) == dedup_first(xs),
{
    if xs.no_duplicates() {
        lemma_dedup_first_unchanged(xs);
    }
    lemma_dedup_first_no_duplicates(xs);
    lemma_dedup_first_unchanged(dedup_first(xs));
}

proof fn lemma_dedup_first_unchanged<A>(xs: Seq<A>)
    requires
        xs.no_duplicates(),
    ensures
        dedup_first(xs) == xs,
    decreases xs.len(),
{
    if xs.len() == 0 {
        assert(dedup_first(xs) =~= xs) by {
            reveal_with_fuel(Seq::remove_duplicates, 1);
        }
    } else {
        let init = xs.drop_last();
        assert(init.no_duplicates());
        lemma_dedup_first_unchanged(init);
        lemma_dedup_first_push(init, xs.last());
        assert(init.push(xs.last()) =~= xs);
        assert(!init.contains(xs.last())) by {
            if init.contains(xs.last()) {
                let t = choose|t: int| 0 <= t < init.len() && init[t] == xs.last();
                assert(xs[t] == xs[xs.len() - 1]);
            }
        }
    }
}

/// Removes repeated strings, keeping the first occurrence of each, in the
/// order in which they first occur.
pub fn dedup_preserve_order(v: Vec<String>) -> (out: Vec<String>)
    ensures
        string_views(out@) == dedup_first(string_views(v@)),
{
    let mut out: Vec<String> = Vec::new();
    let mut i: usize = 0;
    proof {
        assert(string_views(v@).take(0) =~= Seq::<Seq<char>>::empty());
        Seq::<Seq<char>>::empty().lemma_remove_duplicates_properties(Seq::empty());
        assert(dedup_first(Seq::<Seq<char>>::empty()) =~= Seq::<Seq<char>>::empty()) by {
            reveal_with_fuel(Seq::remove_duplicates, 1);
        }
    }
    while i < v.len()
        invariant
            i <= v.len(),
            string_views(out@) == dedup_first(string_views(v@).take(i as int)),
        decreases v.len() - i,
    {
        let x = &v[i];
        let mut seen = false;
        let mut j: usize = 0;
        while j < out.len()
            invariant
                j <= out.len(),
                seen <==> exists|k: int| 0 <= k < j && out@[k]@ == x@,
            decreases out.len() - j,
        {
            if out[j] == *x {
                seen = true;
            }
            j = j + 1;
        }
        let ghost prefix = string_views(v@).take(i as int);
        proof {
            assert(string_views(v@).take(i + 1) =~= prefix.push(x@));
            lemma_dedup_first_push(prefix, x@);
            assert(seen <==> string_views(out@).contains(x@)) by {
                if string_views(out@).contains(x@) {
                    let k = choose|k: int| 0 <= k < string_views(out@).len() && string_views(out@)[k] == x@;
                    assert(out@[k]@ == x@);
                }
                if seen {
                    let k = choose|k: int| 0 <= k < j && out@[k]@ == x@;
                    assert(string_views(out@)[k] == x@);
                }
            }
        }
        if !seen {
            out.push(x.clone());
            proof {
                assert(string_views(out@) =~= dedup_first(prefix).push(x@));
            }
        }
        i = i + 1;
    }
    proof {
        assert(string_views(v@).take(v.len() as int) =~= string_views(v@));
    }
    out
}

} // verus!
