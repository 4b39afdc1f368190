use vstd::prelude::*;

verus! {

broadcast use vstd::string::group_string_axioms;

/// The second segment that marks an account of a global deployment.
pub open spec fn global_marker() -> Seq<char> {
    seq!['G', 'L', 'O', 'B', 'A', 'L']
}

/// The index of the first `c` in `s` at or after `from`, or `s.len()` where there is none.
pub open spec fn find_from(s: Seq<char>, c: char, from: int) -> int
    decreases s.len() - from,
{
    if from >= s.len() {
        s.len() as int
    } else if s[from] == c {
        from
    } else {
        find_from(s, c, from + 1)
    }
}

/// The index of the last `c` in `s`, or -1 where there is none.
pub open spec fn find_last(s: Seq<char>, c: char) -> int
    decreases s.len(),
{
    if s.len() == 0 {
        -1
    } else if s.last() == c {
        s.len() - 1
    } else {
        find_last(s.drop_last(), c)
    }
}

/// The characters of `s` before its first `.` (all of `s` where it has none).
pub open spec fn first_segment(s: Seq<char>) -> Seq<char> {
    s.take(find_from(s, '.', 0))
}

/// The characters between the first `.` of `s` and the next one (or the end).
pub open spec fn second_segment(s: Seq<char>) -> Seq<char> {
    let d = find_from(s, '.', 0);
    s.subrange(d + 1, find_from(s, '.', d + 1))
}

/// `f` without its last `-` and what follows it; `f` itself where it has no `-`.
pub open spec fn strip_dash_suffix(f: Seq<char>) -> Seq<char> {
    let k = find_last(f, '-');
    if k >= 0 {
        f.take(k)
    } else {
        f
    }
}

/// The account locator of the identifier `s`.
///
/// An identifier without a `.` is its own locator. Otherwise, where the second
/// segment is exactly `GLOBAL`, the locator is the first segment without its
/// last `-` and what follows (the first segment whole where it has no `-`);
/// for any other second segment it is the first segment.
pub open spec fn account_locator(s: Seq<char>) -> Seq<char> {
    if !s.contains('.') {
        s
    } else if second_segment(s) == global_marker() {
        strip_dash_suffix(first_segment(s))
    } else {
        first_segment(s)
    }
}

proof fn lemma_find_from(s: Seq<char>, c: char, from: int, k: int)
    requires
        0 <= from <= k <= s.len(),
        forall|i: int| from <= i < k ==> s[i] != c,
        k == s.len() || s[k] == c,
    ensures
        find_from(s, c, from) == k,
    decreases k - from,
{
    if from < k {
        lemma_find_from(s, c, from + 1, k);
    }
}

proof fn lemma_find_from_bounds(s: Seq<char>, c: char, from: int)
    requires
        0 <= from <= s.len(),
    ensures
        from <= find_from(s, c, from) <= s.len(),
        find_from(s, c, from) < s.len() ==> s[find_from(s, c, from)] == c,
        forall|i: int| from <= i < find_from(s, c, from) ==> s[i] != c,
    decreases s.len() - from,
{
    if from < s.len() && s[from] != c {
        lemma_find_from_bounds(s, c, from + 1);
    }
}

proof fn lemma_find_last_bounds(s: Seq<char>, c: char)
    ensures
        -1 <= find_last(s, c) < s.len(),
    decreases s.len(),
{
    if s.len() > 0 && s.last() != c {
        lemma_find_last_bounds(s.drop_last(), c);
    }
}

proof fn lemma_find_last(s: Seq<char>, c: char, k: int)
    requires
        -1 <= k < s.len(),
        k >= 0 ==> s[k] == c,
        forall|i: int| k < i < s.len() ==> s[i] != c,
    ensures
        find_last(s, c) == k,
    decreases s.len(),
{
    if s.len() > 0 && s.len() - 1 != k {
        lemma_find_last(s.drop_last(), c, k);
    }
}

/// Every locator is a prefix of its identifier: normalising never lengthens
/// an identifier and never brings in a character that it did not hold.
pub proof fn lemma_locator_is_prefix(s: Seq<char>)
    ensures
        account_locator(s).len() <= s.len(),
        s.take(account_locator(s).len() as int) == account_locator(s),
{
    lemma_find_from_bounds(s, '.', 0);
    let f = first_segment(s);
    if s.contains('.') && second_segment(s) == global_marker() && find_last(f, '-') >= 0 {
        lemma_find_last_bounds(f, '-');
        assert(s.take(find_last(f, '-')) =~= f.take(find_last(f, '-')));
    }
    assert(s.take(s.len() as int) =~= s);
}

/// An identifier that holds no `.` is its own locator.
pub proof fn lemma_simple_account_unchanged(s: Seq<char>)
    requires
        !s.contains('.'),
    ensures
        account_locator(s) == s,
{
}

/// `<prefix>-<suffix>.GLOBAL` normalises to `<prefix>`, where neither part
/// holds a `-` or a `.`.
pub proof fn lemma_global_dash_stripped(prefix: Seq<char>, suffix: Seq<char>)
    requires
        !prefix.contains('-'),
        !prefix.contains('.'),
        !suffix.contains('-'),
        !suffix.contains('.'),
    ensures
        account_locator(prefix + seq!['-'] + suffix + seq!['.'] + global_marker()) == prefix,
{
    let head = prefix + seq!['-'] + suffix;
    let s = head + seq!['.'] + global_marker();
    let n = head.len() as int;
    assert forall|i: int| 0 <= i < n implies s[i] != '.' by {
        assert(s[i] == head[i]);
        if i < prefix.len() {
            assert(head[i] == prefix[i]);
        } else if i > prefix.len() {
            assert(head[i] == suffix[i - prefix.len() - 1]);
        }
    }
    assert(s[n] == '.');
    lemma_find_from(s, '.', 0, n);
    assert forall|i: int| n + 1 <= i < s.len() implies s[i] != '.' by {
        assert(s[i] == global_marker()[i - n - 1]);
    }
    lemma_find_from(s, '.', n + 1, s.len() as int);
    assert(s.contains('.'));
    assert(second_segment(s) =~= global_marker());
    assert(first_segment(s) =~= head);
    assert forall|i: int| prefix.len() < i < head.len() implies head[i] != '-' by {
        assert(head[i] == suffix[i - prefix.len() - 1]);
    }
    lemma_find_last(head, '-', prefix.len() as int);
    assert(head.take(prefix.len() as int) =~= prefix);
}

/// `<account>.<tag>...` normalises to `<account>` where `<tag>` is not
/// `GLOBAL`: the tag and every segment after it are dropped.
pub proof fn lemma_subdomains_stripped(account: Seq<char>, tag: Seq<char>, rest: Seq<char>)
    requires
        !account.contains('.'),
        !tag.contains('.'),
        tag != global_marker(),
        rest.len() == 0 || rest[0] == '.',
    ensures
        account_locator(account + seq!['.'] + tag + rest) == account,
{
    let s = account + seq!['.'] + tag + rest;
    let n = account.len() as int;
    let m = n + 1 + tag.len();
    assert forall|i: int| 0 <= i < n implies s[i] != '.' by {
        assert(s[i] == account[i]);
    }
    assert(s[n] == '.');
    lemma_find_from(s, '.', 0, n);
    assert forall|i: int| n + 1 <= i < m implies s[i] != '.' by {
        assert(s[i] == tag[i - n - 1]);
    }
    if rest.len() > 0 {
        assert(s[m] == rest[0]);
    }
    lemma_find_from(s, '.', n + 1, m);
    assert(s.contains('.'));
    assert(second_segment(s) =~= tag);
    assert(first_segment(s) =~= account);
}

/// The characters of `s`, in order.
fn chars_of(s: &str) -> (r: Vec<char>)
    ensures
        r@ == s@,
{
    let mut r: Vec<char> = Vec::new();
    for c in it: s.chars()
        invariant
            it.seq() == s@,
            r@ == it.seq().take(it.index() as int),
    {
        r.push(c);
    }
    r
}

/// The index of the first `c` in `cs` at or after `from`, or `cs.len()` where there is none.
fn index_from(cs: &Vec<char>, c: char, from: usize) -> (r: usize)
    requires
        from <= cs.len(),
    ensures
        r == find_from(cs@, c, from as int),
{
    let mut i: usize = from;
    while i < cs.len() && cs[i] != c
        invariant
            from <= i <= cs.len(),
            find_from(cs@, c, from as int) == find_from(cs@, c, i as int),
        decreases cs.len() - i,
    {
        i = i + 1;
    }
    i
}

/// The index of the last `c` among the first `end` characters of `cs`, or `end` where there is none.
fn last_index_before(cs: &Vec<char>, c: char, end: usize) -> (r: usize)
    requires
        end <= cs.len(),
    ensures
        r <= end,
        find_last(cs@.take(end as int), c) >= 0 ==> r == find_last(cs@.take(end as int), c),
        find_last(cs@.take(end as int), c) < 0 ==> r == end,
{
    let ghost f = cs@.take(end as int);
    let mut j: usize = end;
    while j > 0 && cs[j - 1] != c
        invariant
            j <= end <= cs.len(),
            f == cs@.take(end as int),
            forall|i: int| j <= i < end ==> f[i] != c,
        decreases j,
    {
        j = j - 1;
    }
    if j > 0 {
        proof {
            lemma_find_last(f, c, j - 1);
        }
        j - 1
    } else {
        proof {
            lemma_find_last(f, c, -1);
        }
        end
    }
}

/// Whether the characters of `cs` from `from` up to `to` are exactly `GLOBAL`.
fn is_global_marker(cs: &Vec<char>, from: usize, to: usize) -> (b: bool)
    requires
        from <= to <= cs.len(),
    ensures
        b == (cs@.subrange(from as int, to as int) == global_marker()),
{
    let b = to - from == 6 && cs[from] == 'G' && cs[from + 1] == 'L' && cs[from + 2] == 'O'
        && cs[from + 3] == 'B' && cs[from + 4] == 'A' && cs[from + 5] == 'L';
    proof {
        let seg = cs@.subrange(from as int, to as int);
        if b {
            assert(seg =~= global_marker());
        } else if seg == global_marker() {
            assert(seg.len() == 6);
            assert(seg[0] == 'G' && seg[1] == 'L' && seg[2] == 'O');
            assert(seg[3] == 'B' && seg[4] == 'A' && seg[5] == 'L');
        }
    }
    b
}

/// Normalises an account identifier into its account locator.
///
/// An identifier without a `.` comes back unchanged. Where its second
/// `.`-segment is exactly `GLOBAL`, the result is its first segment without
/// the last `-` and what follows it; a first segment without a `-` comes back
/// whole, and the `.GLOBAL` qualifier is dropped all the same. Any other
/// second segment (a region, a cloud) is dropped together with all further
/// segments, leaving the first segment.
pub fn parse_account(account: &str) -> (r: String)
    ensures
        r@ == account_locator(account@),
{
    let cs = chars_of(account);
    let d1 = index_from(&cs, '.', 0);
    proof {
        lemma_find_from_bounds(cs@, '.', 0);
    }
    if d1 == cs.len() {
        assert(!account@.contains('.'));
        return account.to_owned();
    }
    assert(account@.contains('.')) by {
        assert(account@[d1 as int] == '.');
    }
    let d2 = index_from(&cs, '.', d1 + 1);
    proof {
        lemma_find_from_bounds(cs@, '.', d1 + 1);
    }
    let end = if is_global_marker(&cs, d1 + 1, d2) {
        last_index_before(&cs, '-', d1)
    } else {
        d1
    };
    account.substring_char(0, end).to_owned()
}

} // verus!
