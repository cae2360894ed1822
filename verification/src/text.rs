use vstd::prelude::*;

verus! {

/// The character that separates the fields of a line.
pub const TAB: char = '\t';

/// Whether `c` is white space: the code points to which Unicode gives the
/// property `White_Space`.
pub open spec fn is_whitespace(c: char) -> bool {
    let n = c as u32;
    ||| 0x09 <= n <= 0x0D
    ||| n == 0x20
    ||| n == 0x85
    ||| n == 0xA0
    ||| n == 0x1680
    ||| 0x2000 <= n <= 0x200A
    ||| n == 0x2028
    ||| n == 0x2029
    ||| n == 0x202F
    ||| n == 0x205F
    ||| n == 0x3000
}

/// `s` without its leading white space.
pub open spec fn trim_start(s: Seq<char>) -> Seq<char>
    decreases s.len(),
{
    if s.len() > 0 && is_whitespace(s.first()) {
        trim_start(s.drop_first())
    } else {
        s
    }
}

/// `s` without its trailing white space.
pub open spec fn trim_end(s: Seq<char>) -> Seq<char>
    decreases s.len(),
{
    if s.len() > 0 && is_whitespace(s.last()) {
        trim_end(s.drop_last())
    } else {
        s
    }
}

/// `s` without the white space at either end.
pub open spec fn trim(s: Seq<char>) -> Seq<char> {
    trim_end(trim_start(s))
}

/// The position of the first tab in `s`, or the length of `s` if it holds none.
pub open spec fn first_tab(s: Seq<char>) -> nat
    decreases s.len(),
{
    if s.len() == 0 || s.first() == TAB {
        0
    } else {
        1 + first_tab(s.drop_first())
    }
}

/// The fields of `s`: the stretches between its tabs, in order. There is
/// always at least one field, and a field may be empty.
pub open spec fn fields(s: Seq<char>) -> Seq<Seq<char>>
    decreases s.len(),
{
    let i = first_tab(s);
    if i >= s.len() {
        seq![s]
    } else {
        seq![s.take(i as int)] + fields(s.skip(i as int + 1))
    }
}

/// What a line says: the first two fields of the trimmed line, if it has two.
pub open spec fn parse_line(line: Seq<char>) -> Option<(Seq<char>, Seq<char>)> {
    let f = fields(trim(line));
    if f.len() >= 2 {
        Some((f[0], f[1]))
    } else {
        None
    }
}

/// Dropping a run of white space from the front of `s` that ends where `s`
/// does or before a character that is no white space gives `trim_start(s)`.
proof fn lemma_trim_start(s: Seq<char>, lo: int)
    requires
        0 <= lo <= s.len(),
        forall|i: int| 0 <= i < lo ==> is_whitespace(#[trigger] s[i]),
        lo < s.len() ==> !is_whitespace(s[lo]),
    ensures
        trim_start(s) == s.skip(lo),
    decreases lo,
{
    if lo == 0 {
        assert(s.skip(0) =~= s);
    } else {
        let rest = s.drop_first();
        assert forall|i: int| 0 <= i < lo - 1 implies is_whitespace(#[trigger] rest[i]) by {
            assert(rest[i] == s[i + 1]);
        }
        lemma_trim_start(rest, lo - 1);
        assert(rest.skip(lo - 1) =~= s.skip(lo));
    }
}

/// The same at the other end.
proof fn lemma_trim_end(s: Seq<char>, hi: int)
    requires
        0 <= hi <= s.len(),
        forall|i: int| hi <= i < s.len() ==> is_whitespace(#[trigger] s[i]),
        0 < hi ==> !is_whitespace(s[hi - 1]),
    ensures
        trim_end(s) == s.take(hi),
    decreases s.len() - hi,
{
    if hi == s.len() {
        assert(s.take(hi) =~= s);
    } else {
        let rest = s.drop_last();
        lemma_trim_end(rest, hi);
        assert(rest.take(hi) =~= s.take(hi));
    }
}

/// The first tab of `s` stands where no tab comes before and one stands, or
/// `s` ends.
proof fn lemma_first_tab(s: Seq<char>, i: int)
    requires
        0 <= i <= s.len(),
        forall|j: int| 0 <= j < i ==> #[trigger] s[j] != TAB,
        i < s.len() ==> s[i] == TAB,
    ensures
        first_tab(s) == i,
    decreases i,
{
    if i > 0 {
        let rest = s.drop_first();
        assert forall|j: int| 0 <= j < i - 1 implies #[trigger] rest[j] != TAB by {
            assert(rest[j] == s[j + 1]);
        }
        lemma_first_tab(rest, i - 1);
    }
}

/// The first tab lies within the sequence or at its end; no tab comes before it.
pub proof fn lemma_first_tab_is_first(s: Seq<char>)
    ensures
        first_tab(s) <= s.len(),
        first_tab(s) < s.len() ==> s[first_tab(s) as int] == TAB,
        forall|j: int| 0 <= j < first_tab(s) ==> #[trigger] s[j] != TAB,
    decreases s.len(),
{
    if !(s.len() == 0 || s.first() == TAB) {
        let rest = s.drop_first();
        lemma_first_tab_is_first(rest);
        assert forall|j: int| 0 <= j < first_tab(s) implies #[trigger] s[j] != TAB by {
            if j > 0 {
                assert(s[j] == rest[j - 1]);
            }
        }
    }
}

/// Decides [`is_whitespace`].
pub fn char_is_whitespace(c: char) -> (b: bool)
    ensures
        b == is_whitespace(c),
{
    let n: u32 = c as u32;
    (0x09 <= n && n <= 0x0D) || n == 0x20 || n == 0x85 || n == 0xA0 || n == 0x1680 || (0x2000 <= n
        && n <= 0x200A) || n == 0x2028 || n == 0x2029 || n == 0x202F || n == 0x205F || n == 0x3000
}

/// The characters of `s`, in order.
fn chars_of(s: &str) -> (v: Vec<char>)
    ensures
        v@ == s@,
{
    let mut v: Vec<char> = Vec::new();
    for c in it: s.chars()
        invariant
            v@ == it.seq().take(it.index() as int),
    {
        v.push(c);
    }
    v
}

/// Where the trimmed line starts and ends within `cs`.
fn trim_bounds(cs: &Vec<char>) -> (b: (usize, usize))
    ensures
        b.0 <= b.1 <= cs.len(),
        trim(cs@) == cs@.subrange(b.0 as int, b.1 as int),
{
    let n: usize = cs.len();
    let mut lo: usize = 0;
    while lo < n && char_is_whitespace(cs[lo])
        invariant
            lo <= n == cs.len(),
            forall|i: int| 0 <= i < lo ==> is_whitespace(#[trigger] cs@[i]),
        decreases n - lo,
    {
        lo += 1;
    }
    let mut hi: usize = n;
    while hi > lo && char_is_whitespace(cs[hi - 1])
        invariant
            lo <= hi <= n == cs.len(),
            forall|i: int| hi <= i < n ==> is_whitespace(#[trigger] cs@[i]),
        decreases hi,
    {
        hi -= 1;
    }
    proof {
        let rest = cs@.skip(lo as int);
        lemma_trim_start(cs@, lo as int);
        assert forall|i: int| hi - lo <= i < rest.len() implies is_whitespace(
            #[trigger] rest[i],
        ) by {
            assert(rest[i] == cs@[i + lo]);
        }
        lemma_trim_end(rest, hi - lo);
        assert(rest.take(hi - lo) =~= cs@.subrange(lo as int, hi as int));
    }
    (lo, hi)
}

/// The end of the field of `cs[..end]` that starts at `from`: the place of
/// the next tab, or `end`.
fn field_end(cs: &Vec<char>, from: usize, end: usize) -> (at: usize)
    requires
        from <= end <= cs.len(),
    ensures
        from <= at <= end,
        at - from == first_tab(cs@.subrange(from as int, end as int)),
{
    let mut at: usize = from;
    while at < end && cs[at] != TAB
        invariant
            from <= at <= end <= cs.len(),
            forall|j: int| from <= j < at ==> #[trigger] cs@[j] != TAB,
        decreases end - at,
    {
        at += 1;
    }
    proof {
        lemma_first_tab(cs@.subrange(from as int, end as int), at - from);
    }
    at
}

/// Reads one line: trims it, splits it at the tabs and gives the first two
/// fields, the source and the target of an edge. A line with fewer than two
/// fields gives `None`.
pub fn split_line(line: &str) -> (r: Option<(String, String)>)
    ensures
        match r {
            Some((source, target)) => parse_line(line@) == Some((source@, target@)),
            None => parse_line(line@) is None,
        },
{
    let cs = chars_of(line);
    let (lo, hi) = trim_bounds(&cs);
    let ghost t = cs@.subrange(lo as int, hi as int);
    let t1 = field_end(&cs, lo, hi);
    if t1 == hi {
        return None;
    }
    let t2 = field_end(&cs, t1 + 1, hi);
    let source = line.substring_char(lo, t1).to_owned();
    let target = line.substring_char(t1 + 1, t2).to_owned();
    proof {
        let rest = t.skip(t1 - lo + 1);
        assert(rest =~= cs@.subrange(t1 + 1, hi as int));
        assert(t.take(t1 - lo) =~= cs@.subrange(lo as int, t1 as int));
        assert(rest.take(t2 - t1 - 1) =~= cs@.subrange(t1 + 1, t2 as int));
        assert(fields(rest)[0] == rest.take(first_tab(rest) as int)) by {
            assert(rest.take(rest.len() as int) =~= rest);
        }
    }
    Some((source, target))
}

} // verus!
