//! Character-level text helpers with exact specifications.
//!
//! Text is handled as sequences of `char`, which is what the view of a
//! `str` or `String` is.
use vstd::prelude::*;

verus! {

/// The characters `char::is_whitespace` accepts: Unicode `White_Space`.
pub open spec fn spec_is_space(c: char) -> bool {
    let n = c as u32;
    ||| 0x09 <= n <= 0x0D
    ||| n == 0x20
    ||| n == 0x85
    ||| n == 0xA0
    ||| n == 0x1680
    ||| 0x2000 <= n <= 0x200A
    ||| n == 0x2028
    ||| n == 0x2029
    ||| n == 0x202F
    ||| n == 0x205F
    ||| n == 0x3000
}

/// Whether `c` is Unicode white space, as `char::is_whitespace` decides.
pub fn is_space(c: char) -> (r: bool)
    ensures
        r == spec_is_space(c),
{
    let n = c as u32;
    (0x09 <= n && n <= 0x0D) || n == 0x20 || n == 0x85 || n == 0xA0 || n == 0x1680 || (0x2000
        <= n && n <= 0x200A) || n == 0x2028 || n == 0x2029 || n == 0x202F || n == 0x205F || n
        == 0x3000
}

/// The characters `char::is_control` accepts: Unicode general category `Cc`.
pub open spec fn spec_is_control(c: char) -> bool {
    let n = c as u32;
    n <= 0x1F || (0x7F <= n <= 0x9F)
}

/// Whether `c` is a control character, as `char::is_control` decides.
pub fn is_control(c: char) -> (r: bool)
    ensures
        r == spec_is_control(c),
{
    let n = c as u32;
    n <= 0x1F || (0x7F <= n && n <= 0x9F)
}

/// `s` without its leading white space.
pub open spec fn trim_start(s: Seq<char>) -> Seq<char>
    decreases s.len(),
{
    if s.len() > 0 && spec_is_space(s[0]) {
        trim_start(s.drop_first())
    } else {
        s
    }
}

/// `s` without its trailing white space.
pub open spec fn trim_end(s: Seq<char>) -> Seq<char>
    decreases s.len(),
{
    if s.len() > 0 && spec_is_space(s.last()) {
        trim_end(s.drop_last())
    } else {
        s
    }
}

/// `s` without leading and trailing white space, as `str::trim` gives it.
pub open spec fn trim(s: Seq<char>) -> Seq<char> {
    trim_end(trim_start(s))
}

/// Whether `s` begins with `p`.
pub open spec fn has_prefix(s: Seq<char>, p: Seq<char>) -> bool {
    p.len() <= s.len() && s.subrange(0, p.len() as int) == p
}

/// Whether `p` occurs in `s` at position `i`.
pub open spec fn occurs_at(s: Seq<char>, p: Seq<char>, i: int) -> bool {
    0 <= i && i + p.len() <= s.len() && s.subrange(i, i + p.len()) == p
}

/// The first position of `p` in `s`, as `str::find` gives it.
#[verifier::opaque]
pub open spec fn find(s: Seq<char>, p: Seq<char>) -> Option<int> {
    if exists|i: int| occurs_at(s, p, i) {
        Some(choose|i: int| occurs_at(s, p, i) && forall|j: int| 0 <= j < i ==> !occurs_at(s, p, j))
    } else {
        None
    }
}

/// A text is a placeholder when it is enclosed in angle brackets.
pub open spec fn is_placeholder(s: Seq<char>) -> bool {
    s.len() > 0 && s[0] == '<' && s.last() == '>'
}

/// The trimmed text, unless it is empty or a placeholder.
pub open spec fn clean(s: Seq<char>) -> Option<Seq<char>> {
    let t = trim(s);
    if t.len() == 0 || is_placeholder(t) {
        None
    } else {
        Some(t)
    }
}

/// The views of a sequence of strings.
pub open spec fn views(v: Seq<String>) -> Seq<Seq<char>> {
    v.map_values(|s: String| s@)
}

/// The decimal digit for `d`.
pub open spec fn digit(d: nat) -> char {
    if d == 0 {
        '0'
    } else if d == 1 {
        '1'
    } else if d == 2 {
        '2'
    } else if d == 3 {
        '3'
    } else if d == 4 {
        '4'
    } else if d == 5 {
        '5'
    } else if d == 6 {
        '6'
    } else if d == 7 {
        '7'
    } else if d == 8 {
        '8'
    } else {
        '9'
    }
}

/// The decimal representation of `n`, as `Display` writes an integer.
pub open spec fn decimal(n: nat) -> Seq<char>
    decreases n,
{
    if n < 10 {
        seq![digit(n)]
    } else {
        decimal(n / 10).push(digit(n % 10))
    }
}

/// The parts joined with `sep` between consecutive parts.
pub open spec fn join(parts: Seq<Seq<char>>, sep: Seq<char>) -> Seq<char>
    decreases parts.len(),
{
    if parts.len() == 0 {
        Seq::empty()
    } else if parts.len() == 1 {
        parts[0]
    } else {
        join(parts.drop_last(), sep) + sep + parts.last()
    }
}

/// `s` with every non-overlapping occurrence of `p`, left to right,
/// replaced by `r`, as `str::replace` does for a non-empty `p`.
pub open spec fn replace_all(s: Seq<char>, p: Seq<char>, r: Seq<char>) -> Seq<char>
    decreases s.len(),
{
    if s.len() == 0 {
        Seq::empty()
    } else if p.len() > 0 && has_prefix(s, p) {
        r + replace_all(s.subrange(p.len() as int, s.len() as int), p, r)
    } else {
        seq![s[0]] + replace_all(s.drop_first(), p, r)
    }
}

/// Appends `c` to `s`.
///
/// Calls `String::push`, which std documents as appending the given char
/// to the end of the string; that is all this contract claims.
#[verifier::external_body]
pub(crate) fn push_char(s: &mut String, c: char)
    ensures
        final(s)@ == old(s)@.push(c),
{
    s.push(c);
}

/// The characters of `s`, in order.
pub fn chars_of(s: &str) -> (v: Vec<char>)
    ensures
        v@ == s@,
{
    broadcast use vstd::string::group_string_axioms;

    let mut v: Vec<char> = Vec::new();
    for c in it: s.chars()
        invariant
            it.seq() == s@,
            v@ == it.seq().take(it.index()),
    {
        v.push(c);
    }
    v
}

/// The string made of `chars[from..to]`.
pub fn string_of(chars: &Vec<char>, from: usize, to: usize) -> (s: String)
    requires
        from <= to <= chars@.len(),
    ensures
        s@ == chars@.subrange(from as int, to as int),
{
    let mut s = String::new();
    let mut i = from;
    while i < to
        invariant
            from <= i <= to <= chars@.len(),
            s@ == chars@.subrange(from as int, i as int),
        decreases to - i,
    {
        push_char(&mut s, chars[i]);
        i += 1;
        assert(s@ =~= chars@.subrange(from as int, i as int));
    }
    s
}

/// Appends `chars[from..to]` to `s`.
pub fn append_chars(s: &mut String, chars: &Vec<char>, from: usize, to: usize)
    requires
        from <= to <= chars@.len(),
    ensures
        final(s)@ == old(s)@ + chars@.subrange(from as int, to as int),
{
    let mut i = from;
    while i < to
        invariant
            from <= i <= to <= chars@.len(),
            s@ == old(s)@ + chars@.subrange(from as int, i as int),
        decreases to - i,
    {
        push_char(s, chars[i]);
        i += 1;
        assert(s@ =~= old(s)@ + chars@.subrange(from as int, i as int));
    }
}

proof fn lemma_trim_start_skip(s: Seq<char>, i: int)
    requires
        0 <= i < s.len(),
        spec_is_space(s[i]),
    ensures
        trim_start(s.subrange(i, s.len() as int)) == trim_start(s.subrange(i + 1, s.len() as int)),
{
    assert(s.subrange(i, s.len() as int).drop_first() =~= s.subrange(i + 1, s.len() as int));
}

proof fn lemma_trim_end_skip(s: Seq<char>, j: int)
    requires
        0 < j <= s.len(),
        spec_is_space(s[j - 1]),
    ensures
        trim_end(s.subrange(0, j)) == trim_end(s.subrange(0, j - 1)),
{
    assert(s.subrange(0, j).drop_last() =~= s.subrange(0, j - 1));
}

/// The bounds `(a, b)` with `chars[a..b]` the trimmed text of `chars[from..to]`.
pub fn trim_bounds(chars: &Vec<char>, from: usize, to: usize) -> (r: (usize, usize))
    requires
        from <= to <= chars@.len(),
    ensures
        from <= r.0 <= r.1 <= to,
        chars@.subrange(r.0 as int, r.1 as int) == trim(chars@.subrange(from as int, to as int)),
{
    let ghost s = chars@.subrange(from as int, to as int);
    let mut a = from;
    while a < to && is_space(chars[a])
        invariant
            from <= a <= to <= chars@.len(),
            trim_start(s) == trim_start(chars@.subrange(a as int, to as int)),
        decreases to - a,
    {
        proof {
            lemma_trim_start_skip(chars@.subrange(0, to as int), a as int);
            assert(chars@.subrange(0, to as int).subrange(a as int, to as int) =~= chars@.subrange(a as int, to as int));
            assert(chars@.subrange(0, to as int).subrange(a + 1, to as int) =~= chars@.subrange(a + 1, to as int));
        }
        a += 1;
    }
    proof {
        assert(trim_start(chars@.subrange(a as int, to as int)) == chars@.subrange(a as int, to as int));
    }
    let mut b = to;
    while b > a && is_space(chars[b - 1])
        invariant
            from <= a <= b <= to <= chars@.len(),
            trim(s) == trim_end(chars@.subrange(a as int, b as int)),
        decreases b - a,
    {
        proof {
            let t = chars@.subrange(a as int, b as int);
            lemma_trim_end_skip(t, t.len() as int);
            assert(t.subrange(0, t.len() as int) =~= t);
            assert(t.subrange(0, t.len() - 1) =~= chars@.subrange(a as int, b - 1));
        }
        b -= 1;
    }
    (a, b)
}

proof fn lemma_find_first(s: Seq<char>, p: Seq<char>, i: int)
    requires
        occurs_at(s, p, i),
        forall|j: int| 0 <= j < i ==> !occurs_at(s, p, j),
    ensures
        find(s, p) == Some(i),
{
    reveal(find);
    let w = choose|w: int| occurs_at(s, p, w) && forall|j: int| 0 <= j < w ==> !occurs_at(s, p, j);
    assert(occurs_at(s, p, w));
    if w < i {
        assert(!occurs_at(s, p, w));
    } else if w > i {
        assert(!occurs_at(s, p, i));
    }
}

/// Whether `p` occurs in `s` at position `i`.
pub fn occurs_at_exec(s: &Vec<char>, p: &Vec<char>, i: usize) -> (r: bool)
    requires
        i <= s@.len(),
    ensures
        r == occurs_at(s@, p@, i as int),
{
    if p.len() > s.len() - i {
        return false;
    }
    let mut k: usize = 0;
    while k < p.len()
        invariant
            i + p@.len() <= s@.len(),
            k <= p@.len(),
            s@.len() == s.len(),
            forall|j: int| 0 <= j < k ==> s@[i + j] == p@[j],
        decreases p@.len() - k,
    {
        if s[i + k] != p[k] {
            assert(s@.subrange(i as int, i + p@.len())[k as int] != p@[k as int]);
            return false;
        }
        k += 1;
    }
    assert(s@.subrange(i as int, i + p@.len()) =~= p@);
    true
}

/// The first position of `p` in `s`.
pub fn find_exec(s: &Vec<char>, p: &Vec<char>) -> (r: Option<usize>)
    ensures
        r matches Some(i) ==> find(s@, p@) == Some(i as int) && occurs_at(s@, p@, i as int),
        r is None ==> find(s@, p@) is None,
{
    reveal(find);
    if p.len() == 0 {
        assert(s@.subrange(0, 0) =~= p@);
        assert(occurs_at(s@, p@, 0));
        return Some(0);
    }
    let mut i: usize = 0;
    while i < s.len()
        invariant
            i <= s@.len(),
            p@.len() > 0,
            forall|j: int| 0 <= j < i ==> !occurs_at(s@, p@, j),
        decreases s@.len() - i,
    {
        if occurs_at_exec(s, p, i) {
            proof {
                lemma_find_first(s@, p@, i as int);
            }
            return Some(i);
        }
        i += 1;
    }
    proof {
        assert forall|j: int| !occurs_at(s@, p@, j) by {
            if 0 <= j && j + p@.len() <= s@.len() {
                assert(j < i);
            }
        }
    }
    None
}

/// Whether `s` begins with `p`.
pub fn starts_with(s: &str, p: &str) -> (r: bool)
    ensures
        r == has_prefix(s@, p@),
{
    let sv = chars_of(s);
    let pv = chars_of(p);
    occurs_at_exec(&sv, &pv, 0)
}

/// Whether `a` and `b` hold the same text.
pub fn same_text(a: &str, b: &str) -> (r: bool)
    ensures
        r == (a@ == b@),
{
    let av = chars_of(a);
    let bv = chars_of(b);
    if av.len() != bv.len() {
        return false;
    }
    let r = occurs_at_exec(&av, &bv, 0);
    assert(av@.subrange(0, bv@.len() as int) =~= av@);
    r
}

/// The decimal representation of `n`.
pub fn decimal_exec(n: u64) -> (s: String)
    ensures
        s@ == decimal(n as nat),
    decreases n,
{
    let d = (n % 10) as u8;
    let c = if d == 0 {
        '0'
    } else if d == 1 {
        '1'
    } else if d == 2 {
        '2'
    } else if d == 3 {
        '3'
    } else if d == 4 {
        '4'
    } else if d == 5 {
        '5'
    } else if d == 6 {
        '6'
    } else if d == 7 {
        '7'
    } else if d == 8 {
        '8'
    } else {
        '9'
    };
    if n < 10 {
        let mut s = String::new();
        push_char(&mut s, c);
        assert(s@ =~= seq![digit(n as nat)]);
        s
    } else {
        let mut s = decimal_exec(n / 10);
        push_char(&mut s, c);
        s
    }
}

/// The parts joined with `sep`.
pub fn join_exec(parts: &Vec<String>, sep: &str) -> (s: String)
    ensures
        s@ == join(views(parts@), sep@),
{
    let mut s = String::new();
    let mut i: usize = 0;
    while i < parts.len()
        invariant
            i <= parts@.len(),
            s@ == join(views(parts@).take(i as int), sep@),
        decreases parts@.len() - i,
    {
        proof {
            let t = views(parts@).take(i + 1);
            assert(t.drop_last() =~= views(parts@).take(i as int));
            assert(t.last() == parts@[i as int]@);
        }
        if i > 0 {
            s.append(sep);
        } else {
            assert(views(parts@).take(0) =~= Seq::<Seq<char>>::empty());
        }
        s.append(parts[i].as_str());
        i += 1;
    }
    assert(views(parts@).take(i as int) =~= views(parts@));
    s
}

/// Whether two character sequences are equal.
pub fn chars_equal(a: &Vec<char>, b: &Vec<char>) -> (r: bool)
    ensures
        r == (a@ == b@),
{
    if a.len() != b.len() {
        return false;
    }
    let r = occurs_at_exec(a, b, 0);
    assert(a@.subrange(0, b@.len() as int) =~= a@);
    r
}

proof fn lemma_replace_step(s: Seq<char>, p: Seq<char>, r: Seq<char>, i: int)
    requires
        0 <= i < s.len(),
    ensures
        p.len() > 0 && occurs_at(s, p, i) ==> replace_all(s.subrange(i, s.len() as int), p, r) == r
            + replace_all(s.subrange(i + p.len(), s.len() as int), p, r),
        !(p.len() > 0 && occurs_at(s, p, i)) ==> replace_all(s.subrange(i, s.len() as int), p, r)
            == seq![s[i]] + replace_all(s.subrange(i + 1, s.len() as int), p, r),
{
    let t = s.subrange(i, s.len() as int);
    if p.len() <= t.len() {
        assert(t.subrange(0, p.len() as int) =~= s.subrange(i, i + p.len()));
    }
    if p.len() > 0 && occurs_at(s, p, i) {
        assert(t.subrange(p.len() as int, t.len() as int) =~= s.subrange(i + p.len(), s.len() as int));
    } else {
        assert(t.drop_first() =~= s.subrange(i + 1, s.len() as int));
    }
}

/// `s` with every occurrence of `p`, left to right, replaced by `r`.
pub fn replace_exec(s: &Vec<char>, p: &Vec<char>, r: &Vec<char>) -> (out: Vec<char>)
    ensures
        out@ == replace_all(s@, p@, r@),
{
    let mut out: Vec<char> = Vec::new();
    let mut i: usize = 0;
    assert(s@.subrange(0, s@.len() as int) =~= s@);
    while i < s.len()
        invariant
            i <= s@.len(),
            out@ + replace_all(s@.subrange(i as int, s@.len() as int), p@, r@) == replace_all(s@, p@, r@),
        decreases s@.len() - i,
    {
        proof {
            lemma_replace_step(s@, p@, r@, i as int);
        }
        if p.len() > 0 && occurs_at_exec(s, p, i) {
            let ghost before = out@;
            let mut k: usize = 0;
            while k < r.len()
                invariant
                    k <= r@.len(),
                    out@ == before + r@.take(k as int),
                decreases r@.len() - k,
            {
                out.push(r[k]);
                k += 1;
                assert(out@ =~= before + r@.take(k as int));
            }
            assert(r@.take(k as int) =~= r@);
            assert(out@ + replace_all(s@.subrange(i + p@.len(), s@.len() as int), p@, r@) =~= before + (r@ + replace_all(s@.subrange(i + p@.len(), s@.len() as int), p@, r@)));
            i = i + p.len();
        } else {
            let ghost before = out@;
            out.push(s[i]);
            assert(out@ + replace_all(s@.subrange(i + 1, s@.len() as int), p@, r@) =~= before + (seq![s@[i as int]] + replace_all(s@.subrange(i + 1, s@.len() as int), p@, r@)));
            i = i + 1;
        }
    }
    assert(s@.subrange(i as int, s@.len() as int) =~= Seq::<char>::empty());
    assert(out@ + Seq::<char>::empty() =~= out@);
    out
}

} // verus!
