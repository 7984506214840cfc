use vstd::prelude::*;

verus! {

/// Relies on std's String::push: appends one character at the end.
#[verifier::external_body]
pub(crate) fn push_char(s: &mut String, c: char)
    ensures
        final(s)@ == old(s)@.push(c),
{
    s.push(c);
}

/// Relies on memchr::memchr: the position of the first occurrence of a byte.
#[verifier::external_body]
pub(crate) fn find_byte(needle: u8, haystack: &[u8]) -> (r: Option<usize>)
    ensures
        match r {
            Some(i) => i < haystack@.len() && haystack@[i as int] == needle && forall|j: int|
                0 <= j < i ==> haystack@[j] != needle,
            None => forall|j: int| 0 <= j < haystack@.len() ==> haystack@[j] != needle,
        },
{
    memchr::memchr(needle, haystack)
}

/// The pieces of `s` between the `'.'` characters, `cur` standing before the first.
pub open spec fn split_acc(s: Seq<char>, cur: Seq<char>) -> Seq<Seq<char>>
    decreases s.len(),
{
    if s.len() == 0 {
        seq![cur]
    } else if s[0] == '.' {
        seq![cur] + split_acc(s.drop_first(), Seq::empty())
    } else {
        split_acc(s.drop_first(), cur.push(s[0]))
    }
}

/// The pieces of `s` between its `'.'` characters (one piece when there is none).
pub open spec fn split_dots(s: Seq<char>) -> Seq<Seq<char>> {
    split_acc(s, Seq::empty())
}

/// The characters of each string.
pub open spec fn strings_view(v: Seq<String>) -> Seq<Seq<char>> {
    Seq::new(v.len(), |i: int| v[i]@)
}

/// Splits a dotted path at each `'.'`.
pub fn split_path(s: &str) -> (r: Vec<String>)
    ensures
        strings_view(r@) == split_dots(s@),
{
    let n = s.unicode_len();
    let mut segs: Vec<String> = Vec::new();
    let mut cur = String::new();
    let mut i: usize = 0;
    assert(s@.subrange(0, n as int) =~= s@);
    assert(strings_view(segs@) =~= Seq::<Seq<char>>::empty());
    while i < n
        invariant
            n == s@.len(),
            0 <= i <= n,
            split_dots(s@) == strings_view(segs@) + split_acc(s@.subrange(i as int, n as int), cur@),
        decreases n - i,
    {
        let c = s.get_char(i);
        let ghost rest = s@.subrange(i as int, n as int);
        assert(rest.drop_first() =~= s@.subrange(i + 1, n as int));
        assert(rest[0] == c);
        if c == '.' {
            let ghost before = segs@;
            let ghost cv = cur@;
            segs.push(cur);
            cur = String::new();
            assert(strings_view(segs@) =~= strings_view(before).push(cv));
            assert(strings_view(before) + (seq![cv] + split_acc(rest.drop_first(), Seq::empty()))
                =~= strings_view(before).push(cv) + split_acc(rest.drop_first(), Seq::empty()));
        } else {
            push_char(&mut cur, c);
        }
        i = i + 1;
    }
    let ghost before = segs@;
    segs.push(cur);
    assert(strings_view(segs@) =~= strings_view(before).push(segs@.last()@));
    segs
}

} // verus!
