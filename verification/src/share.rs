//! Share codes: the codes a configured value holds.
use vstd::prelude::*;
use crate::text::{
    chars_of, clean, find, find_exec, string_of, trim, trim_bounds, views,
};

verus! {

/// A stop character ends the share code that follows `sharecode=` in a link.
pub open spec fn is_stop(c: char) -> bool {
    c == '&' || c == '#' || c == '/' || c == '?'
}

/// The text before the first stop character.
pub open spec fn until_stop(s: Seq<char>) -> Seq<char>
    decreases s.len(),
{
    if s.len() == 0 || is_stop(s[0]) {
        Seq::empty()
    } else {
        seq![s[0]] + until_stop(s.drop_first())
    }
}

/// The pieces of `s` between commas, as `str::split(',')` yields them.
pub open spec fn split_commas(s: Seq<char>) -> Seq<Seq<char>>
    decreases s.len(),
{
    if s.len() == 0 {
        seq![Seq::empty()]
    } else {
        let init = split_commas(s.drop_last());
        if s.last() == ',' {
            init.push(Seq::empty())
        } else {
            init.update(init.len() - 1, init.last().push(s.last()))
        }
    }
}

/// The cleaned pieces, without those that are empty or placeholders.
pub open spec fn keep_codes(pieces: Seq<Seq<char>>) -> Seq<Seq<char>>
    decreases pieces.len(),
{
    if pieces.len() == 0 {
        Seq::empty()
    } else {
        let kept = keep_codes(pieces.drop_last());
        match clean(pieces.last()) {
            Some(t) => kept.push(t),
            None => kept,
        }
    }
}

/// The part of a trimmed value that holds the codes: what follows
/// `sharecode=` up to a stop character, or else the whole value.
pub open spec fn code_list(t: Seq<char>) -> Seq<char> {
    match find(t, "sharecode="@) {
        Some(at) => until_stop(t.subrange(at + "sharecode="@.len(), t.len() as int)),
        None => t,
    }
}

/// The share codes a configured value holds.
pub open spec fn spec_share_codes(value: Seq<char>) -> Seq<Seq<char>> {
    keep_codes(split_commas(code_list(trim(value))))
}

pub(crate) proof fn lemma_split_nonempty(s: Seq<char>)
    ensures
        split_commas(s).len() >= 1,
    decreases s.len(),
{
    if s.len() > 0 {
        lemma_split_nonempty(s.drop_last());
    }
}

proof fn lemma_until_stop(s: Seq<char>, i: int)
    requires
        0 <= i <= s.len(),
        forall|j: int| 0 <= j < i ==> !is_stop(s[j]),
        i == s.len() || is_stop(s[i]),
    ensures
        until_stop(s) == s.take(i),
    decreases i,
{
    if i == 0 {
        assert(s.take(0) =~= Seq::<char>::empty());
    } else {
        lemma_until_stop(s.drop_first(), i - 1);
        assert(s.take(i) =~= seq![s[0]] + s.drop_first().take(i - 1));
    }
}

/// Whether `c` ends a share code inside a link.
fn stop_char(c: char) -> (r: bool)
    ensures
        r == is_stop(c),
{
    c == '&' || c == '#' || c == '/' || c == '?'
}

/// The bounds of the code list inside the trimmed value `t`.
fn code_list_bounds(t: &Vec<char>) -> (r: (usize, usize))
    ensures
        r.0 <= r.1 <= t@.len(),
        t@.subrange(r.0 as int, r.1 as int) == code_list(t@),
{
    let key = chars_of("sharecode=");
    match find_exec(t, &key) {
        Some(at) => {
            let tl = t.len();
            assert(at + key@.len() <= tl);
            let start = at + key.len();
            let mut end = start;
            while end < t.len() && !stop_char(t[end])
                invariant
                    start <= end <= t@.len(),
                    forall|j: int| start <= j < end ==> !is_stop(t@[j]),
                decreases t@.len() - end,
            {
                end += 1;
            }
            proof {
                let rest = t@.subrange(start as int, t@.len() as int);
                lemma_until_stop(rest, end - start);
                assert(rest.take(end - start) =~= t@.subrange(start as int, end as int));
            }
            (start, end)
        },
        None => {
            assert(t@.subrange(0, t@.len() as int) =~= t@);
            (0, t.len())
        },
    }
}

/// Appends the cleaned text of `t[from..to]` to `codes` unless it is
/// empty or a placeholder.
fn push_code(codes: &mut Vec<String>, t: &Vec<char>, from: usize, to: usize)
    requires
        from <= to <= t@.len(),
    ensures
        views(final(codes)@) == match clean(t@.subrange(from as int, to as int)) {
            Some(c) => views(old(codes)@).push(c),
            None => views(old(codes)@),
        },
{
    let (pa, pb) = trim_bounds(t, from, to);
    if pa < pb && !(t[pa] == '<' && t[pb - 1] == '>') {
        let code = string_of(t, pa, pb);
        codes.push(code);
        assert(views(codes@) =~= views(old(codes)@).push(t@.subrange(pa as int, pb as int)));
    }
}

proof fn lemma_split_step(before: Seq<char>, c: char)
    ensures
        c == ',' ==> split_commas(before.push(c)).drop_last() == split_commas(before),
        c == ',' ==> split_commas(before.push(c)).last() == Seq::<char>::empty(),
        c != ',' ==> split_commas(before.push(c)).drop_last() == split_commas(before).drop_last(),
        c != ',' ==> split_commas(before.push(c)).last() == split_commas(before).last().push(c),
{
    lemma_split_nonempty(before);
    let after = before.push(c);
    assert(after.drop_last() =~= before);
    let sb = split_commas(before);
    if c == ',' {
        assert(split_commas(after).drop_last() =~= sb);
    } else {
        assert(split_commas(after).drop_last() =~= sb.drop_last());
    }
}

proof fn lemma_keep_last(s: Seq<Seq<char>>)
    requires
        s.len() >= 1,
    ensures
        keep_codes(s) == match clean(s.last()) {
            Some(c) => keep_codes(s.drop_last()).push(c),
            None => keep_codes(s.drop_last()),
        },
{
}

/// The kept codes of the comma-separated list `t[lo..hi]`.
fn scan_codes(t: &Vec<char>, lo: usize, hi: usize) -> (codes: Vec<String>)
    requires
        lo <= hi <= t@.len(),
    ensures
        views(codes@) == keep_codes(split_commas(t@.subrange(lo as int, hi as int))),
{
    let ghost list = t@.subrange(lo as int, hi as int);
    let mut codes: Vec<String> = Vec::new();
    let mut start = lo;
    let mut i = lo;
    proof {
        assert(t@.subrange(lo as int, lo as int) =~= Seq::<char>::empty());
        assert(split_commas(Seq::<char>::empty()).drop_last() =~= Seq::<Seq<char>>::empty());
    }
    while i < hi
        invariant
            lo <= start <= i <= hi <= t@.len(),
            list == t@.subrange(lo as int, hi as int),
            split_commas(t@.subrange(lo as int, i as int)).last() == t@.subrange(start as int, i as int),
            views(codes@) == keep_codes(split_commas(t@.subrange(lo as int, i as int)).drop_last()),
        decreases hi - i,
    {
        let ghost before = t@.subrange(lo as int, i as int);
        proof {
            assert(t@.subrange(lo as int, i + 1) =~= before.push(t@[i as int]));
            lemma_split_step(before, t@[i as int]);
            lemma_split_nonempty(before);
        }
        if t[i] == ',' {
            push_code(&mut codes, t, start, i);
            proof {
                let sb = split_commas(before);
                lemma_keep_last(sb);
                assert(t@.subrange(i + 1, i + 1) =~= Seq::<char>::empty());
            }
            start = i + 1;
        } else {
            assert(t@.subrange(start as int, i + 1) =~= t@.subrange(start as int, i as int).push(t@[i as int]));
        }
        i += 1;
    }
    push_code(&mut codes, t, start, hi);
    proof {
        lemma_split_nonempty(list);
        lemma_keep_last(split_commas(list));
    }
    codes
}

/// The share codes in a configured value: a bare code, a comma-separated
/// list of codes, or a control link carrying `sharecode=`. Codes are
/// trimmed; empty ones and `<placeholders>` are dropped.
pub fn share_codes(value: &str) -> (codes: Vec<String>)
    ensures
        views(codes@) == spec_share_codes(value@),
{
    let all = chars_of(value);
    let (a, b) = trim_bounds(&all, 0, all.len());
    let t = sub_vec(&all, a, b);
    assert(all@.subrange(0, all@.len() as int) =~= value@);
    let (lo, hi) = code_list_bounds(&t);
    scan_codes(&t, lo, hi)
}

/// A copy of `v[from..to]`.
pub(crate) fn sub_vec(v: &Vec<char>, from: usize, to: usize) -> (r: Vec<char>)
    requires
        from <= to <= v@.len(),
    ensures
        r@ == v@.subrange(from as int, to as int),
{
    let mut r: Vec<char> = Vec::new();
    let mut i = from;
    while i < to
        invariant
            from <= i <= to <= v@.len(),
            r@ == v@.subrange(from as int, i as int),
        decreases to - i,
    {
        r.push(v[i]);
        i += 1;
        assert(r@ =~= v@.subrange(from as int, i as int));
    }
    r
}

} // verus!
