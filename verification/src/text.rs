//! Searching and cutting of character sequences.

use vstd::prelude::*;
use vstd::string::*;

verus! {

/// Whether `pat` stands in `s` at position `at`.
pub open spec fn matches_at(s: Seq<char>, pat: Seq<char>, at: int) -> bool {
    0 <= at && at + pat.len() <= s.len() && s.subrange(at, at + pat.len()) == pat
}

/// Whether `pat` stands somewhere in `s`.
pub open spec fn occurs_in(s: Seq<char>, pat: Seq<char>) -> bool {
    exists|at: int| matches_at(s, pat, at)
}

/// The first position at which `pat` stands in `s`, where it stands in it.
pub open spec fn first_match(s: Seq<char>, pat: Seq<char>) -> int {
    choose|at: int| matches_at(s, pat, at) && forall|b: int| 0 <= b < at ==> !matches_at(s, pat, b)
}

/// The pieces between the occurrences of the separator `pat` in `s`, read from
/// the left, an occurrence starting where the one before it has ended. There
/// is one piece more than there are such occurrences.
#[verifier::opaque]
pub open spec fn split(s: Seq<char>, pat: Seq<char>) -> Seq<Seq<char>>
    recommends
        pat.len() > 0,
    decreases s.len(),
{
    if pat.len() > 0 && occurs_in(s, pat) {
        let at = first_match(s, pat);
        if 0 <= at && at + pat.len() <= s.len() {
            seq![s.take(at)] + split(s.skip(at + pat.len()), pat)
        } else {
            seq![s]
        }
    } else {
        seq![s]
    }
}

/// The segments put together with `sep` between them.
pub open spec fn join(parts: Seq<Seq<char>>, sep: Seq<char>) -> Seq<char>
    decreases parts.len(),
{
    if parts.len() == 0 {
        Seq::empty()
    } else if parts.len() == 1 {
        parts[0]
    } else {
        join(parts.drop_last(), sep) + sep + parts.last()
    }
}

pub open spec fn starts_with(s: Seq<char>, prefix: Seq<char>) -> bool {
    matches_at(s, prefix, 0)
}

pub open spec fn ends_with(s: Seq<char>, suffix: Seq<char>) -> bool {
    matches_at(s, suffix, s.len() - suffix.len())
}

/// Where the first match is, where there is a match at `at` and none before.
pub proof fn lemma_first_match(s: Seq<char>, pat: Seq<char>, at: int)
    requires
        matches_at(s, pat, at),
        forall|b: int| 0 <= b < at ==> !matches_at(s, pat, b),
    ensures
        occurs_in(s, pat),
        first_match(s, pat) == at,
{
    let f = first_match(s, pat);
    if f < at {
        assert(!matches_at(s, pat, f));
    } else if at < f {
        assert(!matches_at(s, pat, at));
    }
}

/// Where the separator stands at `k`, it stands somewhere for the first time.
pub proof fn lemma_first_match_exists(s: Seq<char>, pat: Seq<char>, k: int)
    requires
        matches_at(s, pat, k),
    ensures
        matches_at(s, pat, first_match(s, pat)),
        first_match(s, pat) <= k,
        forall|b: int| 0 <= b < first_match(s, pat) ==> !matches_at(s, pat, b),
    decreases k,
{
    if exists|b: int| 0 <= b < k && matches_at(s, pat, b) {
        let b = choose|b: int| 0 <= b < k && matches_at(s, pat, b);
        lemma_first_match_exists(s, pat, b);
    } else {
        lemma_first_match(s, pat, k);
    }
}

/// `split` gives one piece at least, and two where the separator stands in the text.
pub proof fn lemma_split_len(s: Seq<char>, pat: Seq<char>)
    requires
        pat.len() > 0,
    ensures
        split(s, pat).len() >= 1,
        occurs_in(s, pat) ==> split(s, pat).len() >= 2,
{
    reveal(split);
    if occurs_in(s, pat) {
        let k = choose|k: int| matches_at(s, pat, k);
        lemma_first_match_exists(s, pat, k);
        let at = first_match(s, pat);
        lemma_split_one(s.skip(at + pat.len()), pat);
    }
}

/// `split` gives one piece at least.
proof fn lemma_split_one(s: Seq<char>, pat: Seq<char>)
    ensures
        split(s, pat).len() >= 1,
{
    reveal(split);
}

/// The characters of a string.
pub fn to_chars(s: &str) -> (chars: Vec<char>)
    ensures
        chars@ == s@,
{
    let mut chars: Vec<char> = Vec::new();
    for c in it: s.chars()
        invariant
            it.seq() == s@,
            chars@ == it.seq().take(it.index() as int),
    {
        chars.push(c);
    }
    assert(chars@ == s@);
    chars
}

/// Whether `pat` stands in `s` at position `at`.
pub fn has_match_at(s: &Vec<char>, pat: &Vec<char>, at: usize) -> (found: bool)
    ensures
        found == matches_at(s@, pat@, at as int),
{
    if pat.len() > s.len() || at > s.len() - pat.len() {
        return false;
    }
    let mut i: usize = 0;
    while i < pat.len()
        invariant
            i <= pat.len(),
            at + pat.len() <= s.len(),
            forall|j: int| 0 <= j < i ==> s@[at + j] == pat@[j],
        decreases pat.len() - i,
    {
        if s[at + i] != pat[i] {
            assert(s@.subrange(at as int, at + pat@.len())[i as int] == s@[at + i]);
            return false;
        }
        i = i + 1;
    }
    assert(s@.subrange(at as int, at + pat@.len()) =~= pat@);
    true
}

pub fn chars_start_with(s: &Vec<char>, prefix: &Vec<char>) -> (found: bool)
    ensures
        found == starts_with(s@, prefix@),
{
    has_match_at(s, prefix, 0)
}

pub fn chars_end_with(s: &Vec<char>, suffix: &Vec<char>) -> (found: bool)
    ensures
        found == ends_with(s@, suffix@),
{
    if suffix.len() > s.len() {
        return false;
    }
    has_match_at(s, suffix, s.len() - suffix.len())
}

/// The first position from `from` on at which `pat` stands in `s`.
pub fn find_from(s: &Vec<char>, pat: &Vec<char>, from: usize) -> (found: Option<usize>)
    requires
        from <= s.len(),
        pat.len() > 0,
    ensures
        found is Some <==> occurs_in(s@.skip(from as int), pat@),
        found matches Some(at) ==> from <= at && at + pat.len() <= s.len() && at - from
            == first_match(s@.skip(from as int), pat@),
{
    let ghost rest = s@.skip(from as int);
    let mut at: usize = from;
    while at < s.len()
        invariant
            from <= at <= s.len(),
            pat.len() > 0,
            rest == s@.skip(from as int),
            forall|b: int| 0 <= b < at - from ==> !matches_at(rest, pat@, b),
        decreases s.len() - at,
    {
        let here = has_match_at(s, pat, at);
        proof {
            if at + pat@.len() <= s@.len() {
                assert(rest.subrange(at - from, at - from + pat@.len()) =~= s@.subrange(
                    at as int,
                    at + pat@.len(),
                ));
            }
        }
        if here {
            proof {
                lemma_first_match(rest, pat@, at - from);
            }
            return Some(at);
        }
        at = at + 1;
    }
    assert forall|b: int| !matches_at(rest, pat@, b) by {
        if matches_at(rest, pat@, b) {
            assert(b < at - from);
        }
    }
    None
}

/// `split` of a sequence in which the separator first stands at `at`.
proof fn lemma_split_unfold(s: Seq<char>, pat: Seq<char>, at: int)
    requires
        pat.len() > 0,
        occurs_in(s, pat),
        first_match(s, pat) == at,
        0 <= at,
        at + pat.len() <= s.len(),
    ensures
        split(s, pat) == seq![s.take(at)] + split(s.skip(at + pat.len()), pat),
{
    reveal(split);
}

/// Putting a piece behind the pieces found so far.
proof fn lemma_push_piece(done: Seq<Seq<char>>, piece: Seq<char>, next: Seq<Seq<char>>)
    ensures
        done + (seq![piece] + next) == done.push(piece) + next,
{
    assert(done + (seq![piece] + next) =~= done.push(piece) + next);
}

/// One more piece, where the separator stands in what is left of `s` from `from` on.
proof fn lemma_split_found(s: Seq<char>, pat: Seq<char>, done: Seq<Seq<char>>, from: int, at: int)
    requires
        pat.len() > 0,
        0 <= from <= at,
        at + pat.len() <= s.len(),
        occurs_in(s.skip(from), pat),
        first_match(s.skip(from), pat) == at - from,
        split(s, pat) == done + split(s.skip(from), pat),
    ensures
        split(s, pat) == done.push(s.subrange(from, at)) + split(s.skip(at + pat.len()), pat),
{
    let rest = s.skip(from);
    let piece = rest.take(at - from);
    let next = split(s.skip(at + pat.len()), pat);
    assert(piece =~= s.subrange(from, at));
    assert(rest.skip(at - from + pat.len()) =~= s.skip(at + pat.len()));
    lemma_split_unfold(rest, pat, at - from);
    lemma_push_piece(done, piece, next);
}

/// The last piece, where the separator does not stand in what is left of `s` from `from` on.
proof fn lemma_split_last(s: Seq<char>, pat: Seq<char>, done: Seq<Seq<char>>, from: int)
    requires
        0 <= from <= s.len(),
        !occurs_in(s.skip(from), pat),
        split(s, pat) == done + split(s.skip(from), pat),
    ensures
        split(s, pat) == done.push(s.subrange(from, s.len() as int)),
{
    reveal(split);
    let rest = s.skip(from);
    assert(rest =~= s.subrange(from, s.len() as int));
    assert(split(rest, pat) == seq![rest]);
    assert(done + seq![rest] =~= done.push(rest));
}

/// The bounds of the pieces that `split` cuts `s` into.
pub fn split_ranges(s: &Vec<char>, pat: &Vec<char>) -> (ranges: Vec<(usize, usize)>)
    requires
        pat.len() > 0,
    ensures
        ranges@.len() == split(s@, pat@).len(),
        forall|k: int|
            0 <= k < ranges@.len() ==> (#[trigger] ranges@[k]).0 <= ranges@[k].1 <= s@.len()
                && s@.subrange(ranges@[k].0 as int, ranges@[k].1 as int) == split(s@, pat@)[k],
{
    let mut ranges: Vec<(usize, usize)> = Vec::new();
    let mut from: usize = 0;
    let mut open = true;
    let ghost mut done: Seq<Seq<char>> = Seq::empty();
    let ghost whole = split(s@, pat@);
    proof {
        assert(s@.skip(0) =~= s@);
        assert(Seq::<Seq<char>>::empty() + whole =~= whole);
    }
    while open
        invariant
            pat.len() > 0,
            from <= s.len(),
            ranges@.len() == done.len(),
            whole == split(s@, pat@),
            open ==> whole == done + split(s@.skip(from as int), pat@),
            !open ==> whole == done,
            forall|k: int|
                0 <= k < ranges@.len() ==> (#[trigger] ranges@[k]).0 <= ranges@[k].1 <= s@.len()
                    && s@.subrange(ranges@[k].0 as int, ranges@[k].1 as int) == done[k],
        decreases s.len() - from, open as int,
    {
        match find_from(s, pat, from) {
            Some(at) => {
                ranges.push((from, at));
                proof {
                    lemma_split_found(s@, pat@, done, from as int, at as int);
                    done = done.push(s@.subrange(from as int, at as int));
                }
                from = at + pat.len();
            },
            None => {
                ranges.push((from, s.len()));
                proof {
                    lemma_split_last(s@, pat@, done, from as int);
                    done = done.push(s@.subrange(from as int, s@.len() as int));
                }
                open = false;
            },
        }
    }
    ranges
}

/// The strings whose characters the given ranges of `s` hold.
pub fn pieces(s: &str, ranges: &Vec<(usize, usize)>) -> (parts: Vec<String>)
    requires
        forall|k: int|
            0 <= k < ranges@.len() ==> (#[trigger] ranges@[k]).0 <= ranges@[k].1 <= s@.len(),
    ensures
        parts@.len() == ranges@.len(),
        forall|k: int|
            0 <= k < parts@.len() ==> (#[trigger] parts@[k])@ == s@.subrange(
                ranges@[k].0 as int,
                ranges@[k].1 as int,
            ),
{
    let mut parts: Vec<String> = Vec::new();
    let mut k: usize = 0;
    while k < ranges.len()
        invariant
            k <= ranges.len(),
            parts@.len() == k,
            forall|j: int|
                0 <= j < ranges@.len() ==> (#[trigger] ranges@[j]).0 <= ranges@[j].1 <= s@.len(),
            forall|j: int|
                0 <= j < k ==> (#[trigger] parts@[j])@ == s@.subrange(
                    ranges@[j].0 as int,
                    ranges@[j].1 as int,
                ),
        decreases ranges.len() - k,
    {
        let (from, to) = ranges[k];
        parts.push(s.substring_char(from, to).to_owned());
        k = k + 1;
    }
    parts
}

/// The strings between the occurrences of the separator `pat` in `s`.
pub fn split_str(s: &str, pat: &str) -> (parts: Vec<String>)
    requires
        pat@.len() > 0,
    ensures
        parts.deep_view() == split(s@, pat@),
{
    let chars = to_chars(s);
    let pattern = to_chars(pat);
    let ranges = split_ranges(&chars, &pattern);
    let parts = pieces(s, &ranges);
    assert(parts.deep_view() =~= split(s@, pat@));
    parts
}

/// The characters of the segments with `sep` between them.
pub fn join_chars(parts: &Vec<String>, sep: &str) -> (joined: Vec<char>)
    ensures
        joined@ == join(parts.deep_view(), sep@),
{
    let mut joined: Vec<char> = Vec::new();
    let separator = to_chars(sep);
    let mut k: usize = 0;
    while k < parts.len()
        invariant
            k <= parts.len(),
            separator@ == sep@,
            joined@ == join(parts.deep_view().take(k as int), sep@),
        decreases parts.len() - k,
    {
        let ghost before = joined@;
        if k > 0 {
            push_all(&mut joined, &separator);
        }
        let part = to_chars(parts[k].as_str());
        push_all(&mut joined, &part);
        proof {
            let taken = parts.deep_view().take(k + 1);
            assert(taken.drop_last() =~= parts.deep_view().take(k as int));
            assert(taken.last() == parts@[k as int]@);
            if k == 0 {
                assert(before =~= Seq::<char>::empty());
                assert(joined@ =~= taken[0]);
            }
        }
        k = k + 1;
    }
    assert(parts.deep_view().take(parts@.len() as int) =~= parts.deep_view());
    joined
}

/// Puts the characters of `more` behind those of `chars`.
pub fn push_all(chars: &mut Vec<char>, more: &Vec<char>)
    ensures
        final(chars)@ == old(chars)@ + more@,
{
    let mut i: usize = 0;
    while i < more.len()
        invariant
            i <= more.len(),
            chars@ == old(chars)@ + more@.take(i as int),
        decreases more.len() - i,
    {
        chars.push(more[i]);
        assert(more@.take(i + 1) =~= more@.take(i as int).push(more@[i as int]));
        i = i + 1;
    }
    assert(more@.take(more@.len() as int) =~= more@);
}


/// The text with `with` in place of every occurrence of `pat`, the
/// occurrences read from the left, one starting where the one before it has ended.
pub open spec fn replaced(s: Seq<char>, pat: Seq<char>, with: Seq<char>) -> Seq<char> {
    join(split(s, pat), with)
}

/// The text with `with` in place of every occurrence of `pat`.
pub fn replace_all(s: &str, pat: &str, with: &str) -> (text: String)
    requires
        pat@.len() > 0,
    ensures
        text@ == replaced(s@, pat@, with@),
{
    let chars = to_chars(s);
    let pattern = to_chars(pat);
    let ranges = split_ranges(&chars, &pattern);
    let ghost cut = split(s@, pat@);
    let mut text = String::new();
    let mut k: usize = 0;
    while k < ranges.len()
        invariant
            k <= ranges.len(),
            cut == split(s@, pat@),
            ranges@.len() == cut.len(),
            forall|j: int|
                0 <= j < ranges@.len() ==> (#[trigger] ranges@[j]).0 <= ranges@[j].1 <= s@.len()
                    && s@.subrange(ranges@[j].0 as int, ranges@[j].1 as int) == cut[j],
            text@ == join(cut.take(k as int), with@),
        decreases ranges.len() - k,
    {
        let ghost before = text@;
        if k > 0 {
            text.append(with);
        }
        let (from, to) = ranges[k];
        text.append(s.substring_char(from, to));
        proof {
            let taken = cut.take(k + 1);
            assert(taken.drop_last() =~= cut.take(k as int));
            assert(taken.last() == cut[k as int]);
            if k == 0 {
                assert(before =~= Seq::<char>::empty());
                assert(text@ =~= taken[0]);
            }
        }
        k = k + 1;
    }
    assert(cut.take(cut.len() as int) =~= cut);
    text
}

} // verus!
