//! Text primitives, stated over sequences of characters.
//!
//! The model of a `str` or a `String` is the sequence of its characters. The
//! specification functions here say what trimming, searching, splitting and
//! joining give; the executable functions beside them compute it.

use vstd::prelude::*;
use vstd::string::*;

verus! {

/// `String::push` puts one character behind the ones the string holds.
pub assume_specification[ String::push ](s: &mut String, c: char)
    ensures
        final(s)@ == old(s)@.push(c),
;

/// The texts that a sequence of strings holds.
pub open spec fn views(v: Seq<String>) -> Seq<Seq<char>> {
    Seq::new(v.len(), |i: int| v[i]@)
}

/// The text of an optional string.
pub open spec fn view_opt(v: Option<String>) -> Option<Seq<char>> {
    match v {
        Some(s) => Some(s@),
        None => None,
    }
}

/// The text of an optional string slice.
pub open spec fn view_opt_str(v: Option<&str>) -> Option<Seq<char>> {
    match v {
        Some(s) => Some(s@),
        None => None,
    }
}

/// Whether `c` has the Unicode property `White_Space`.
pub open spec fn is_space(c: char) -> bool {
    let u = c as u32;
    ||| 0x09 <= u <= 0x0d
    ||| u == 0x20
    ||| u == 0x85
    ||| u == 0xa0
    ||| u == 0x1680
    ||| 0x2000 <= u <= 0x200a
    ||| u == 0x2028
    ||| u == 0x2029
    ||| u == 0x202f
    ||| u == 0x205f
    ||| u == 0x3000
}

/// `s` without the white space it ends with.
pub open spec fn trim_end_of(s: Seq<char>) -> Seq<char>
    decreases s.len(),
{
    if s.len() > 0 && is_space(s.last()) {
        trim_end_of(s.drop_last())
    } else {
        s
    }
}

/// `s` without the white space it starts with.
pub open spec fn trim_start_of(s: Seq<char>) -> Seq<char>
    decreases s.len(),
{
    if s.len() > 0 && is_space(s[0]) {
        trim_start_of(s.drop_first())
    } else {
        s
    }
}

/// `s` without the white space at either end.
pub open spec fn trim_of(s: Seq<char>) -> Seq<char> {
    trim_end_of(trim_start_of(s))
}

/// The position of the first `c` in `s`, or the length of `s` if it has none.
pub open spec fn first_char(s: Seq<char>, c: char) -> int
    decreases s.len(),
{
    if s.len() == 0 {
        0
    } else if s[0] == c {
        0
    } else {
        1 + first_char(s.drop_first(), c)
    }
}

/// Whether `p` stands in `s` at position `i`.
pub open spec fn occurs_at(s: Seq<char>, p: Seq<char>, i: int) -> bool {
    &&& 0 <= i
    &&& i + p.len() <= s.len()
    &&& s.subrange(i, i + p.len()) == p
}

/// The first position, from `i` on, at which `p` stands in `s`.
pub open spec fn first_at_from(s: Seq<char>, p: Seq<char>, i: int) -> Option<int>
    decreases s.len() - i + 1,
{
    if i < 0 || i + p.len() > s.len() {
        None
    } else if occurs_at(s, p, i) {
        Some(i)
    } else {
        first_at_from(s, p, i + 1)
    }
}

/// The first position at which `p` stands in `s`.
pub open spec fn first_at(s: Seq<char>, p: Seq<char>) -> Option<int> {
    first_at_from(s, p, 0)
}

/// The last position, no later than `i`, at which `p` stands in `s`.
pub open spec fn last_at_from(s: Seq<char>, p: Seq<char>, i: int) -> Option<int>
    decreases i + 1,
{
    if i < 0 {
        None
    } else if occurs_at(s, p, i) {
        Some(i)
    } else {
        last_at_from(s, p, i - 1)
    }
}

/// The last position at which `p` stands in `s`.
pub open spec fn last_at(s: Seq<char>, p: Seq<char>) -> Option<int> {
    last_at_from(s, p, s.len() - p.len())
}

/// The pieces of `s` between the characters `sep`.
pub open spec fn split_on(s: Seq<char>, sep: char) -> Seq<Seq<char>>
    decreases s.len(),
{
    let i = first_char(s, sep);
    if 0 <= i < s.len() {
        seq![s.take(i)] + split_on(s.skip(i + 1), sep)
    } else {
        seq![s]
    }
}

/// `s` without one carriage return at its end.
pub open spec fn without_cr(s: Seq<char>) -> Seq<char> {
    if s.len() > 0 && s.last() == '\r' {
        s.drop_last()
    } else {
        s
    }
}

/// The lines of `s`. A line ends in a line feed or in a carriage return and a
/// line feed, neither of which belongs to it; the last line need not.
pub open spec fn lines_of(s: Seq<char>) -> Seq<Seq<char>>
    decreases s.len(),
{
    let i = first_char(s, '\n');
    if s.len() == 0 {
        Seq::empty()
    } else if 0 <= i < s.len() {
        seq![without_cr(s.take(i))] + lines_of(s.skip(i + 1))
    } else {
        seq![s]
    }
}

/// `s` with every `from` replaced by `to`.
pub open spec fn replace_char_in(s: Seq<char>, from: char, to: char) -> Seq<char> {
    Seq::new(
        s.len(),
        |i: int|
            if s[i] == from {
                to
            } else {
                s[i]
            },
    )
}

/// The texts of `parts`, one behind the other, with `sep` between them.
pub open spec fn joined(parts: Seq<Seq<char>>, sep: Seq<char>) -> Seq<char>
    decreases parts.len(),
{
    if parts.len() == 0 {
        Seq::empty()
    } else if parts.len() == 1 {
        parts[0]
    } else {
        joined(parts.drop_last(), sep) + sep + parts.last()
    }
}

/// Whether `s` is white space throughout.
pub open spec fn blank(s: Seq<char>) -> bool {
    forall|i: int| 0 <= i < s.len() ==> is_space(#[trigger] s[i])
}

/// A text is what is left of it without the white space it ends with, and that
/// white space.
pub proof fn lemma_trim_end(s: Seq<char>)
    ensures
        trim_end_of(s).len() <= s.len(),
        s == trim_end_of(s) + s.skip(trim_end_of(s).len() as int),
        blank(s.skip(trim_end_of(s).len() as int)),
        trim_end_of(s).len() > 0 ==> !is_space(trim_end_of(s).last()),
        trim_end_of(trim_end_of(s)) == trim_end_of(s),
    decreases s.len(),
{
    if s.len() > 0 && is_space(s.last()) {
        let t = s.drop_last();
        lemma_trim_end(t);
        let n = trim_end_of(s).len() as int;
        assert(s.skip(n) =~= t.skip(n).push(s.last()));
        assert(s =~= t.push(s.last()));
        assert(trim_end_of(s) + s.skip(n) =~= (trim_end_of(t) + t.skip(n)).push(s.last()));
    } else {
        assert(s =~= s + s.skip(s.len() as int));
    }
}

/// White space at the end makes no difference to a text that is trimmed there.
pub proof fn lemma_trim_end_blank(s: Seq<char>, w: Seq<char>)
    requires
        blank(w),
    ensures
        trim_end_of(s + w) == trim_end_of(s),
    decreases w.len(),
{
    if w.len() == 0 {
        assert(s + w =~= s);
    } else {
        assert((s + w).last() == w.last());
        assert((s + w).drop_last() =~= s + w.drop_last());
        assert(is_space(w[w.len() - 1]));
        assert forall|i: int| 0 <= i < w.drop_last().len() implies is_space(
            #[trigger] w.drop_last()[i],
        ) by {
            assert(w.drop_last()[i] == w[i]);
        }
        lemma_trim_end_blank(s, w.drop_last());
    }
}

/// White space at the start makes no difference to a text that is trimmed there.
pub proof fn lemma_trim_start_blank(w: Seq<char>, s: Seq<char>)
    requires
        blank(w),
    ensures
        trim_start_of(w + s) == trim_start_of(s),
    decreases w.len(),
{
    if w.len() == 0 {
        assert(w + s =~= s);
    } else {
        assert((w + s)[0] == w[0]);
        assert((w + s).drop_first() =~= w.drop_first() + s);
        assert forall|i: int| 0 <= i < w.drop_first().len() implies is_space(
            #[trigger] w.drop_first()[i],
        ) by {
            assert(w.drop_first()[i] == w[i + 1]);
        }
        lemma_trim_start_blank(w.drop_first(), s);
    }
}

/// What follows a text that is not blank is not touched by trimming its start.
pub proof fn lemma_trim_start_concat(s: Seq<char>, t: Seq<char>)
    requires
        trim_start_of(s).len() > 0,
    ensures
        trim_start_of(s + t) == trim_start_of(s) + t,
    decreases s.len(),
{
    assert((s + t)[0] == s[0]);
    if is_space(s[0]) {
        assert((s + t).drop_first() =~= s.drop_first() + t);
        lemma_trim_start_concat(s.drop_first(), t);
    }
}

/// A text that does not end in white space and is not empty is not blank.
pub proof fn lemma_trim_start_some(s: Seq<char>)
    requires
        s.len() > 0,
        !is_space(s.last()),
    ensures
        trim_start_of(s).len() > 0,
    decreases s.len(),
{
    if is_space(s[0]) {
        assert(s.drop_first().last() == s.last());
        lemma_trim_start_some(s.drop_first());
    }
}

/// What is left of a text is empty or starts with something else than white space.
pub proof fn lemma_trim_start(s: Seq<char>)
    ensures
        trim_start_of(s).len() > 0 ==> !is_space(trim_start_of(s)[0]),
    decreases s.len(),
{
    if s.len() > 0 && is_space(s[0]) {
        lemma_trim_start(s.drop_first());
    }
}

/// Text that was trimmed has no white space to start with, nor any to end with.
pub proof fn lemma_trim_again(s: Seq<char>)
    ensures
        trim_start_of(trim_of(s)) == trim_of(s),
        trim_of(trim_of(s)) == trim_of(s),
{
    let t = trim_start_of(s);
    lemma_trim_start(s);
    lemma_trim_end(t);
    if trim_of(s).len() > 0 {
        assert(trim_of(s)[0] == t[0]);
    }
}

/// Nothing is left of blank text, and something is left of any other.
pub proof fn lemma_trim_both(s: Seq<char>)
    ensures
        trim_of(trim_end_of(s)) == trim_of(s),
        trim_of(s).len() == 0 <==> trim_end_of(s).len() == 0,
        trim_end_of(trim_of(s)) == trim_of(s),
{
    let t = trim_end_of(s);
    let w = s.skip(t.len() as int);
    lemma_trim_end(s);
    lemma_trim_end(trim_start_of(s));
    if t.len() > 0 {
        lemma_trim_start_some(t);
        lemma_trim_start_concat(t, w);
        lemma_trim_end_blank(trim_start_of(t), w);
        lemma_trim_end(trim_start_of(t));
        lemma_last_of_trim_start(t);
    } else {
        assert(s =~= w);
        lemma_trim_start_blank(w, Seq::empty());
        assert(w + Seq::<char>::empty() =~= w);
        assert(trim_start_of(Seq::<char>::empty()) =~= Seq::<char>::empty());
    }
}

/// Trimming the start of a text that does not end in white space leaves its end.
pub proof fn lemma_last_of_trim_start(s: Seq<char>)
    requires
        s.len() > 0,
        !is_space(s.last()),
    ensures
        trim_start_of(s).len() > 0,
        trim_start_of(s).last() == s.last(),
        trim_end_of(trim_start_of(s)) == trim_start_of(s),
    decreases s.len(),
{
    if is_space(s[0]) {
        assert(s.drop_first().last() == s.last());
        lemma_last_of_trim_start(s.drop_first());
    }
}

/// Where `p` stands somewhere in `s`, it has a first place there.
pub proof fn lemma_first_at(s: Seq<char>, p: Seq<char>, from: int, i: int)
    requires
        0 <= from <= i,
        occurs_at(s, p, i),
    ensures
        first_at_from(s, p, from) matches Some(j) && from <= j <= i && occurs_at(s, p, j),
    decreases i - from,
{
    if !occurs_at(s, p, from) {
        lemma_first_at(s, p, from + 1, i);
    }
}

/// The position of the first `c` is no further than the end, holds `c` unless
/// it is the end, and no `c` stands before it.
pub proof fn lemma_first_char(s: Seq<char>, c: char)
    ensures
        0 <= first_char(s, c) <= s.len(),
        first_char(s, c) < s.len() ==> s[first_char(s, c)] == c,
        forall|j: int| 0 <= j < first_char(s, c) ==> s[j] != c,
    decreases s.len(),
{
    if s.len() > 0 && s[0] != c {
        let rest = s.drop_first();
        lemma_first_char(rest, c);
        assert forall|j: int| 0 <= j < first_char(s, c) implies s[j] != c by {
            if j > 0 {
                assert(rest[j - 1] == s[j]);
            }
        }
    }
}

/// A position that holds `c`, with no `c` before it, is the first one.
pub proof fn lemma_first_char_is(s: Seq<char>, c: char, i: int)
    requires
        0 <= i <= s.len(),
        i < s.len() ==> s[i] == c,
        forall|j: int| 0 <= j < i ==> s[j] != c,
    ensures
        first_char(s, c) == i,
{
    lemma_first_char(s, c);
    let k = first_char(s, c);
    if k < i {
        assert(s[k] != c);
    } else if i < k {
        assert(s[i] != c);
    }
}

/// The characters of `s`, in order.
pub fn chars_of(s: &str) -> (r: Vec<char>)
    ensures
        r@ == s@,
{
    let mut out: Vec<char> = Vec::new();
    for c in it: s.chars()
        invariant
            it.seq() == s@,
            out@ == s@.take(it.index()),
    {
        proof {
            assert(s@.take(it.index() + 1) =~= s@.take(it.index()).push(c));
        }
        out.push(c);
    }
    proof {
        assert(s@.take(s@.len() as int) =~= s@);
    }
    out
}

/// The text that the characters from `from` up to `to` make.
pub fn text_between(chars: &Vec<char>, from: usize, to: usize) -> (r: String)
    requires
        from <= to <= chars@.len(),
    ensures
        r@ == chars@.subrange(from as int, to as int),
{
    let mut out = String::new();
    let mut i: usize = from;
    while i < to
        invariant
            from <= i <= to <= chars@.len(),
            out@ == chars@.subrange(from as int, i as int),
        decreases to - i,
    {
        proof {
            assert(chars@.subrange(from as int, i + 1) =~= chars@.subrange(
                from as int,
                i as int,
            ).push(chars@[i as int]));
        }
        out.push(chars[i]);
        i = i + 1;
    }
    out
}

/// The text that `chars` makes.
pub fn text_of(chars: &Vec<char>) -> (r: String)
    ensures
        r@ == chars@,
{
    proof {
        assert(chars@.subrange(0, chars@.len() as int) =~= chars@);
    }
    text_between(chars, 0, chars.len())
}

/// Whether two texts are the same.
pub fn same_text(a: &str, b: &str) -> (r: bool)
    ensures
        r == (a@ == b@),
{
    let x = a.to_owned();
    let y = b.to_owned();
    x == y
}

/// Whether an optional text is `b`.
pub fn is_text(a: &Option<String>, b: &str) -> (r: bool)
    ensures
        r == (view_opt(*a) == Some(b@)),
{
    match a {
        Some(s) => same_text(s.as_str(), b),
        None => false,
    }
}

/// Whether `list` holds the text `s`.
pub fn contains_text(list: &Vec<String>, s: &str) -> (r: bool)
    ensures
        r == views(list@).contains(s@),
{
    let mut i: usize = 0;
    while i < list.len()
        invariant
            i <= list@.len(),
            forall|j: int| 0 <= j < i ==> views(list@)[j] != s@,
        decreases list@.len() - i,
    {
        if same_text(list[i].as_str(), s) {
            proof {
                assert(views(list@)[i as int] == s@);
            }
            return true;
        }
        i = i + 1;
    }
    false
}

/// A copy of `list`.
pub fn copy_texts(list: &Vec<String>) -> (r: Vec<String>)
    ensures
        views(r@) == views(list@),
        r@.len() == list@.len(),
{
    let mut out: Vec<String> = Vec::new();
    let mut i: usize = 0;
    while i < list.len()
        invariant
            i <= list@.len(),
            out@.len() == i,
            forall|j: int| 0 <= j < i ==> out@[j]@ == list@[j]@,
        decreases list@.len() - i,
    {
        out.push(list[i].clone());
        i = i + 1;
    }
    proof {
        assert(views(out@) =~= views(list@));
    }
    out
}

/// Whether `c` is white space.
pub fn space(c: char) -> (r: bool)
    ensures
        r == is_space(c),
{
    let u: u32 = c as u32;
    (0x09 <= u && u <= 0x0d) || u == 0x20 || u == 0x85 || u == 0xa0 || u == 0x1680 || (0x2000 <= u
        && u <= 0x200a) || u == 0x2028 || u == 0x2029 || u == 0x202f || u == 0x205f || u == 0x3000
}

/// Whether `s` starts with `p`.
pub fn starts_with(s: &str, p: &str) -> (r: bool)
    ensures
        r == p@.is_prefix_of(s@),
{
    let a = chars_of(s);
    let b = chars_of(p);
    stands_at(&a, &b, 0)
}

/// Whether `p` stands in `s` at position `i`.
pub fn stands_at(s: &Vec<char>, p: &Vec<char>, i: usize) -> (r: bool)
    ensures
        r == occurs_at(s@, p@, i as int),
        i == 0 ==> r == p@.is_prefix_of(s@),
{
    if p.len() > s.len() || i > s.len() - p.len() {
        return false;
    }
    let mut k: usize = 0;
    while k < p.len()
        invariant
            k <= p@.len(),
            i + p.len() <= s.len(),
            forall|j: int| 0 <= j < k ==> s@[i + j] == p@[j],
        decreases p@.len() - k,
    {
        if s[i + k] != p[k] {
            proof {
                assert(s@.subrange(i as int, i + p@.len())[k as int] == s@[i + k]);
            }
            return false;
        }
        k = k + 1;
    }
    proof {
        assert(s@.subrange(i as int, i + p@.len()) =~= p@);
    }
    true
}

/// What follows `p` in `s`, where `s` starts with `p`.
pub fn strip_prefix(s: &str, p: &str) -> (r: Option<String>)
    ensures
        r is Some <==> p@.is_prefix_of(s@),
        r matches Some(t) ==> t@ == s@.skip(p@.len() as int),
{
    let a = chars_of(s);
    let b = chars_of(p);
    if stands_at(&a, &b, 0) {
        proof {
            assert(a@.subrange(b@.len() as int, a@.len() as int) =~= s@.skip(p@.len() as int));
        }
        Some(text_between(&a, b.len(), a.len()))
    } else {
        None
    }
}

/// Whether `s` ends with `p`.
pub fn ends_with(s: &str, p: &str) -> (r: bool)
    ensures
        r == p@.is_suffix_of(s@),
{
    let a = chars_of(s);
    let b = chars_of(p);
    if b.len() > a.len() {
        return false;
    }
    stands_at(&a, &b, a.len() - b.len())
}

/// What precedes `p` in `s`, where `s` ends with `p`.
pub fn strip_suffix(s: &str, p: &str) -> (r: Option<String>)
    ensures
        r is Some <==> p@.is_suffix_of(s@),
        r matches Some(t) ==> t@ == s@.take(s@.len() - p@.len()),
{
    let a = chars_of(s);
    let b = chars_of(p);
    if b.len() > a.len() {
        return None;
    }
    if stands_at(&a, &b, a.len() - b.len()) {
        Some(text_between(&a, 0, a.len() - b.len()))
    } else {
        None
    }
}

/// The first position at which `p` stands in `s`.
pub fn find(s: &Vec<char>, p: &Vec<char>) -> (r: Option<usize>)
    ensures
        r is Some <==> first_at(s@, p@) is Some,
        r matches Some(i) ==> first_at(s@, p@) == Some(i as int) && i + p@.len() <= s@.len(),
{
    if p.len() > s.len() {
        return None;
    }
    let last: usize = s.len() - p.len();
    let mut i: usize = 0;
    while i <= last
        invariant
            i <= last + 1,
            last == s@.len() - p@.len(),
            first_at(s@, p@) == first_at_from(s@, p@, i as int),
        decreases last + 1 - i,
    {
        if stands_at(s, p, i) {
            return Some(i);
        }
        if i == last {
            proof {
                reveal_with_fuel(first_at_from, 2);
            }
            return None;
        }
        i = i + 1;
    }
    None
}

/// The last position at which `p` stands in `s`.
pub fn rfind(s: &Vec<char>, p: &Vec<char>) -> (r: Option<usize>)
    ensures
        r is Some <==> last_at(s@, p@) is Some,
        r matches Some(i) ==> last_at(s@, p@) == Some(i as int) && i + p@.len() <= s@.len(),
{
    if p.len() > s.len() {
        return None;
    }
    let mut i: usize = s.len() - p.len();
    loop
        invariant
            i <= s@.len() - p@.len(),
            last_at(s@, p@) == last_at_from(s@, p@, i as int),
        decreases i,
    {
        if stands_at(s, p, i) {
            return Some(i);
        }
        if i == 0 {
            proof {
                reveal_with_fuel(last_at_from, 2);
            }
            return None;
        }
        i = i - 1;
    }
}

/// `s` without the white space it ends with.
pub fn trim_end(s: &str) -> (r: String)
    ensures
        r@ == trim_end_of(s@),
{
    let a = chars_of(s);
    let mut n: usize = a.len();
    proof {
        assert(a@.take(n as int) =~= s@);
    }
    while n > 0 && space(a[n - 1])
        invariant
            n <= a@.len(),
            trim_end_of(a@.take(n as int)) == trim_end_of(s@),
        decreases n,
    {
        proof {
            assert(a@.take(n as int).drop_last() =~= a@.take(n - 1));
        }
        n = n - 1;
    }
    proof {
        assert(a@.subrange(0, n as int) =~= a@.take(n as int));
    }
    text_between(&a, 0, n)
}

/// `s` without the white space it starts with.
pub fn trim_start(s: &str) -> (r: String)
    ensures
        r@ == trim_start_of(s@),
{
    let a = chars_of(s);
    let mut n: usize = 0;
    proof {
        assert(a@.skip(0) =~= s@);
    }
    while n < a.len() && space(a[n])
        invariant
            n <= a@.len(),
            trim_start_of(a@.skip(n as int)) == trim_start_of(s@),
        decreases a@.len() - n,
    {
        proof {
            assert(a@.skip(n as int).drop_first() =~= a@.skip(n + 1));
        }
        n = n + 1;
    }
    proof {
        assert(a@.subrange(n as int, a@.len() as int) =~= a@.skip(n as int));
    }
    text_between(&a, n, a.len())
}

/// `s` without the white space at either end.
pub fn trim(s: &str) -> (r: String)
    ensures
        r@ == trim_of(s@),
{
    let t = trim_start(s);
    trim_end(t.as_str())
}

/// The first position, from `from` on, that holds `c`, or the length of `s`.
pub fn position_from(s: &Vec<char>, c: char, from: usize) -> (r: usize)
    requires
        from <= s@.len(),
    ensures
        from <= r <= s@.len(),
        r - from == first_char(s@.skip(from as int), c),
{
    let mut i: usize = from;
    while i < s.len() && s[i] != c
        invariant
            from <= i <= s@.len(),
            forall|j: int| from <= j < i ==> s@[j] != c,
        decreases s@.len() - i,
    {
        i = i + 1;
    }
    proof {
        lemma_first_char_is(s@.skip(from as int), c, i - from);
    }
    i
}

/// The pieces of `s` between the characters `sep`.
pub fn split(s: &str, sep: char) -> (r: Vec<String>)
    ensures
        views(r@) == split_on(s@, sep),
{
    let a = chars_of(s);
    let mut out: Vec<String> = Vec::new();
    let mut from: usize = 0;
    proof {
        assert(a@.skip(0) =~= s@);
        assert(views(out@) + split_on(s@, sep) =~= split_on(s@, sep));
    }
    loop
        invariant
            a@ == s@,
            from <= a@.len(),
            views(out@) + split_on(a@.skip(from as int), sep) == split_on(s@, sep),
        decreases a@.len() - from,
    {
        let to = position_from(&a, sep, from);
        let piece = text_between(&a, from, to);
        let ghost rest = a@.skip(from as int);
        let ghost before = views(out@);
        out.push(piece);
        proof {
            assert(views(out@) =~= before.push(piece@));
            assert(rest.take(to - from) =~= piece@);
        }
        if to == a.len() {
            proof {
                assert(rest =~= piece@);
                assert(views(out@) =~= before + split_on(rest, sep));
            }
            return out;
        }
        proof {
            assert(rest.skip(to - from + 1) =~= a@.skip(to + 1));
            assert(views(out@) + split_on(a@.skip(to + 1), sep) =~= before + split_on(rest, sep));
        }
        from = to + 1;
    }
}

/// The lines of `s`.
pub fn lines(s: &str) -> (r: Vec<String>)
    ensures
        views(r@) == lines_of(s@),
{
    let a = chars_of(s);
    let mut out: Vec<String> = Vec::new();
    let mut from: usize = 0;
    proof {
        assert(a@.skip(0) =~= s@);
        assert(views(out@) + lines_of(s@) =~= lines_of(s@));
    }
    while from < a.len()
        invariant
            a@ == s@,
            from <= a@.len(),
            views(out@) + lines_of(a@.skip(from as int)) == lines_of(s@),
        decreases a@.len() - from,
    {
        let to = position_from(&a, '\n', from);
        let ghost rest = a@.skip(from as int);
        let ghost before = views(out@);
        if to == a.len() {
            let last = text_between(&a, from, to);
            out.push(last);
            proof {
                assert(views(out@) =~= before.push(last@));
                assert(rest =~= last@);
                assert(views(out@) =~= before + lines_of(rest));
            }
            return out;
        }
        let end: usize = if to > from && a[to - 1] == '\r' {
            to - 1
        } else {
            to
        };
        let line = text_between(&a, from, end);
        out.push(line);
        proof {
            assert(views(out@) =~= before.push(line@));
            assert(without_cr(rest.take(to - from)) =~= line@);
            assert(rest.skip(to - from + 1) =~= a@.skip(to + 1));
            assert(views(out@) + lines_of(a@.skip(to + 1)) =~= before + lines_of(rest));
        }
        from = to + 1;
    }
    proof {
        assert(a@.skip(from as int) =~= Seq::<char>::empty());
        assert(views(out@) + lines_of(a@.skip(from as int)) =~= views(out@));
    }
    out
}

/// `s` with every `from` replaced by `to`.
pub fn replace_char(s: &str, from: char, to: char) -> (r: String)
    ensures
        r@ == replace_char_in(s@, from, to),
{
    let a = chars_of(s);
    let mut out = String::new();
    let mut i: usize = 0;
    while i < a.len()
        invariant
            i <= a@.len(),
            out@ == replace_char_in(a@, from, to).take(i as int),
        decreases a@.len() - i,
    {
        let c = a[i];
        let ghost whole = replace_char_in(a@, from, to);
        proof {
            assert(whole.take(i + 1) =~= whole.take(i as int).push(whole[i as int]));
        }
        if c == from {
            out.push(to);
        } else {
            out.push(c);
        }
        i = i + 1;
    }
    proof {
        assert(replace_char_in(a@, from, to).take(a@.len() as int) =~= replace_char_in(
            a@,
            from,
            to,
        ));
    }
    out
}

/// The texts of `parts`, one behind the other, with `sep` between them.
pub fn join(parts: &Vec<String>, sep: &str) -> (r: String)
    ensures
        r@ == joined(views(parts@), sep@),
{
    let mut out = String::new();
    let mut i: usize = 0;
    while i < parts.len()
        invariant
            i <= parts@.len(),
            out@ == joined(views(parts@).take(i as int), sep@),
        decreases parts@.len() - i,
    {
        proof {
            assert(views(parts@).take(i + 1).drop_last() =~= views(parts@).take(i as int));
        }
        if i > 0 {
            out.append(sep);
        }
        out.append(parts[i].as_str());
        proof {
            if i == 0 {
                assert(out@ =~= parts@[0]@);
            }
        }
        i = i + 1;
    }
    proof {
        assert(views(parts@).take(parts@.len() as int) =~= views(parts@));
    }
    out
}

/// The character of a decimal digit.
pub open spec fn digit_char(d: nat) -> char {
    (('0' as u32) + d) as char
}

/// The decimal numeral of `n`.
pub open spec fn decimal(n: nat) -> Seq<char>
    decreases n,
{
    if n < 10 {
        seq![digit_char(n)]
    } else {
        decimal(n / 10).push(digit_char(n % 10))
    }
}

/// The character of a decimal digit.
fn digit(d: usize) -> (r: char)
    requires
        d < 10,
    ensures
        r == digit_char(d as nat),
{
    match d {
        0 => '0',
        1 => '1',
        2 => '2',
        3 => '3',
        4 => '4',
        5 => '5',
        6 => '6',
        7 => '7',
        8 => '8',
        _ => '9',
    }
}

/// The decimal numeral of `n`.
pub fn number(n: usize) -> (r: String)
    ensures
        r@ == decimal(n as nat),
    decreases n,
{
    if n < 10 {
        let mut out = String::new();
        out.push(digit(n));
        proof {
            assert(out@ =~= seq![digit_char(n as nat)]);
        }
        out
    } else {
        let mut out = number(n / 10);
        out.push(digit(n % 10));
        out
    }
}

/// Whether every character is a decimal digit.
pub open spec fn all_digits(s: Seq<char>) -> bool {
    forall|i: int| 0 <= i < s.len() ==> '0' <= #[trigger] s[i] <= '9'
}

/// The number that a sequence of decimal digits stands for.
pub open spec fn digits_value(s: Seq<char>) -> nat
    decreases s.len(),
{
    if s.len() == 0 {
        0
    } else {
        (10 * digits_value(s.drop_last()) + (s.last() as int - '0' as int)) as nat
    }
}

/// The number that `s` is a numeral of: decimal digits, which a plus sign may
/// come before.
pub open spec fn numeral_value(s: Seq<char>) -> Option<nat> {
    let digits = if s.len() > 0 && s[0] == '+' {
        s.drop_first()
    } else {
        s
    };
    if digits.len() > 0 && all_digits(digits) {
        Some(digits_value(digits))
    } else {
        None
    }
}

proof fn lemma_digits_value_grows(s: Seq<char>, i: int)
    requires
        all_digits(s),
        0 <= i <= s.len(),
    ensures
        digits_value(s.take(i)) <= digits_value(s),
    decreases s.len() - i,
{
    if i < s.len() {
        let next = s.take(i + 1);
        assert(next.drop_last() =~= s.take(i));
        assert(next.last() == s[i]);
        assert('0' <= s[i] <= '9');
        lemma_digits_value_grows(s, i + 1);
    } else {
        assert(s.take(i) =~= s);
    }
}

/// The number that a decimal digit stands for.
fn digit_value(c: char) -> (r: Option<usize>)
    ensures
        r is Some <==> '0' <= c <= '9',
        r matches Some(d) ==> d == c as int - '0' as int && d < 10,
{
    match c {
        '0' => Some(0),
        '1' => Some(1),
        '2' => Some(2),
        '3' => Some(3),
        '4' => Some(4),
        '5' => Some(5),
        '6' => Some(6),
        '7' => Some(7),
        '8' => Some(8),
        '9' => Some(9),
        _ => None,
    }
}

/// The number that `s` is a numeral of, if it is one and the number fits.
pub fn parse_number(s: &str) -> (r: Option<usize>)
    ensures
        match numeral_value(s@) {
            Some(v) => if v <= usize::MAX {
                r == Some(v as usize)
            } else {
                r is None
            },
            None => r is None,
        },
{
    let chars = chars_of(s);
    let from: usize = if chars.len() > 0 && chars[0] == '+' {
        1
    } else {
        0
    };
    let ghost digits = chars@.skip(from as int);
    proof {
        if from == 1 {
            assert(digits =~= s@.drop_first());
        } else {
            assert(digits =~= s@);
        }
    }
    if chars.len() == from {
        return None;
    }
    let mut value: usize = 0;
    let mut i: usize = from;
    proof {
        assert(digits.take(0) =~= Seq::<char>::empty());
    }
    while i < chars.len()
        invariant
            from <= i <= chars@.len(),
            from < chars@.len(),
            digits == chars@.skip(from as int),
            numeral_value(s@) == if digits.len() > 0 && all_digits(digits) {
                Some(digits_value(digits))
            } else {
                None
            },
            all_digits(digits.take(i - from)),
            value == digits_value(digits.take(i - from)),
        decreases chars@.len() - i,
    {
        let ghost k = i - from;
        proof {
            assert(digits[k] == chars@[i as int]);
            assert(digits.take(k + 1).drop_last() =~= digits.take(k));
            assert(digits.take(k + 1).last() == digits[k]);
        }
        match digit_value(chars[i]) {
            None => {
                return None;
            },
            Some(d) => {
                proof {
                    assert forall|j: int| 0 <= j < k + 1 implies '0' <= #[trigger] digits.take(
                        k + 1,
                    )[j] <= '9' by {
                        if j < k {
                            assert(digits.take(k + 1)[j] == digits.take(k)[j]);
                        }
                    }
                    assert(digits_value(digits.take(k + 1)) == 10 * value + d);
                    if all_digits(digits) {
                        lemma_digits_value_grows(digits, k + 1);
                    }
                }
                match value.checked_mul(10) {
                    None => {
                        return None;
                    },
                    Some(tens) => match tens.checked_add(d) {
                        None => {
                            return None;
                        },
                        Some(next) => {
                            value = next;
                        },
                    },
                }
            },
        }
        i = i + 1;
    }
    proof {
        assert(digits.take(i - from) =~= digits);
    }
    Some(value)
}

/// Whether the characters of `p` are those of `s` from `i` on.
pub open spec fn reads(s: Seq<char>, p: Seq<char>, i: int) -> bool {
    &&& 0 <= i
    &&& i + p.len() <= s.len()
    &&& forall|k: int| 0 <= k < p.len() ==> s[i + k] == #[trigger] p[k]
}

proof fn lemma_reads(s: Seq<char>, p: Seq<char>, i: int)
    ensures
        occurs_at(s, p, i) == reads(s, p, i),
{
    if reads(s, p, i) {
        assert(s.subrange(i, i + p.len()) =~= p);
    }
    if occurs_at(s, p, i) {
        assert forall|k: int| 0 <= k < p.len() implies s[i + k] == #[trigger] p[k] by {
            assert(s.subrange(i, i + p.len())[k] == s[i + k]);
        }
    }
}

proof fn lemma_first_at_none(s: Seq<char>, p: Seq<char>, from: int)
    requires
        0 <= from,
    ensures
        match first_at_from(s, p, from) {
            Some(j) => from <= j && occurs_at(s, p, j) && forall|i: int|
                from <= i < j ==> !occurs_at(s, p, i),
            None => forall|i: int| from <= i ==> !occurs_at(s, p, i),
        },
    decreases s.len() - from + 1,
{
    if from + p.len() <= s.len() && !occurs_at(s, p, from) {
        lemma_first_at_none(s, p, from + 1);
    }
}

/// The first place of a text in another is one at which it reads there, and it
/// reads nowhere before it. Where it reads anywhere, it has a first place.
pub proof fn law_first_place(s: Seq<char>, p: Seq<char>)
    ensures
        match first_at(s, p) {
            Some(j) => reads(s, p, j) && forall|i: int| i < j ==> !#[trigger] reads(s, p, i),
            None => forall|i: int| !#[trigger] reads(s, p, i),
        },
{
    lemma_first_at_none(s, p, 0);
    assert forall|i: int| occurs_at(s, p, i) == #[trigger] reads(s, p, i) by {
        lemma_reads(s, p, i);
    }
    if let Some(j) = first_at(s, p) {
        lemma_reads(s, p, j);
    }
}

proof fn lemma_last_at(s: Seq<char>, p: Seq<char>, to: int)
    ensures
        match last_at_from(s, p, to) {
            Some(j) => j <= to && occurs_at(s, p, j) && forall|i: int|
                j < i <= to ==> !occurs_at(s, p, i),
            None => forall|i: int| i <= to ==> !occurs_at(s, p, i),
        },
    decreases to + 1,
{
    if to >= 0 && !occurs_at(s, p, to) {
        lemma_last_at(s, p, to - 1);
    }
}

/// The last place of a text in another is one at which it reads there, and it
/// reads nowhere behind it. Where it reads anywhere, it has a last place.
pub proof fn law_last_place(s: Seq<char>, p: Seq<char>)
    ensures
        match last_at(s, p) {
            Some(j) => reads(s, p, j) && forall|i: int| j < i ==> !#[trigger] reads(s, p, i),
            None => forall|i: int| !#[trigger] reads(s, p, i),
        },
{
    lemma_last_at(s, p, s.len() - p.len());
    assert forall|i: int| occurs_at(s, p, i) == #[trigger] reads(s, p, i) by {
        lemma_reads(s, p, i);
    }
    if let Some(j) = last_at(s, p) {
        lemma_reads(s, p, j);
    }
}

/// Texts that are joined come one behind the other with the separator between
/// them: one text is itself, none is nothing, and two lists that are joined are
/// what each makes, with a separator between.
pub proof fn law_joined(a: Seq<Seq<char>>, b: Seq<Seq<char>>, sep: Seq<char>, one: Seq<char>)
    ensures
        joined(Seq::empty(), sep) == Seq::<char>::empty(),
        joined(seq![one], sep) == one,
        a.len() > 0 && b.len() > 0 ==> joined(a + b, sep) == joined(a, sep) + sep + joined(b, sep),
    decreases b.len(),
{
    if a.len() > 0 && b.len() > 0 {
        let all = a + b;
        assert(all.last() == b.last());
        assert(all.drop_last() =~= a + b.drop_last());
        if b.len() == 1 {
            assert(a + b.drop_last() =~= a);
        } else {
            law_joined(a, b.drop_last(), sep, one);
            assert(joined(all, sep) =~= joined(a, sep) + sep + joined(b, sep));
        }
    }
}

/// The pieces of a text, with the separator between them again, are the text; and
/// no piece holds the separator.
pub proof fn law_pieces_make_the_text(s: Seq<char>, sep: char)
    ensures
        split_on(s, sep).len() > 0,
        joined(split_on(s, sep), seq![sep]) == s,
        forall|i: int|
            0 <= i < split_on(s, sep).len() ==> !(#[trigger] split_on(s, sep)[i]).contains(sep),
    decreases s.len(),
{
    let i = first_char(s, sep);
    lemma_first_char(s, sep);
    if i < s.len() {
        let head = s.take(i);
        let rest = s.skip(i + 1);
        law_pieces_make_the_text(rest, sep);
        let more = split_on(rest, sep);
        law_joined(seq![head], more, seq![sep], head);
        assert(s =~= head + seq![sep] + rest);
        assert forall|k: int| 0 <= k < split_on(s, sep).len() implies !(
        #[trigger] split_on(s, sep)[k]).contains(sep) by {
            if k > 0 {
                assert(split_on(s, sep)[k] == more[k - 1]);
            }
        }
    } else {
        law_joined(Seq::empty(), Seq::empty(), seq![sep], s);
    }
}

/// A line that ends in a line feed, or in a carriage return and a line feed, is the
/// first line, without them; the lines of what follows come behind it.
pub proof fn law_line_ends(line: Seq<char>, rest: Seq<char>)
    requires
        !line.contains('\n'),
    ensures
        line.len() == 0 || line.last() != '\r' ==> lines_of(line + seq!['\n'] + rest) == seq![line]
            + lines_of(rest),
        lines_of(line + seq!['\r', '\n'] + rest) == seq![line] + lines_of(rest),
        lines_of(line) == if line.len() == 0 {
            Seq::empty()
        } else {
            seq![line]
        },
{
    lemma_first_char(line, '\n');
    if first_char(line, '\n') < line.len() {
        assert(line.contains(line[first_char(line, '\n')]));
    }
    if line.len() == 0 || line.last() != '\r' {
        let s = line + seq!['\n'] + rest;
        assert forall|j: int| 0 <= j < line.len() implies s[j] != '\n' by {
            assert(line.contains(line[j]));
        }
        lemma_first_char_is(s, '\n', line.len() as int);
        assert(s.take(line.len() as int) =~= line);
        assert(s.skip(line.len() as int + 1) =~= rest);
    }
    let s = line + seq!['\r', '\n'] + rest;
    let n = line.len() as int;
    assert forall|j: int| 0 <= j < n + 1 implies s[j] != '\n' by {
        if j < n {
            assert(line.contains(line[j]));
        }
    }
    assert(s[n + 1] == '\n');
    lemma_first_char_is(s, '\n', n + 1);
    assert(s.take(n + 1) =~= line.push('\r'));
    assert(line.push('\r').drop_last() =~= line);
    assert(s.skip(n + 2) =~= rest);
}

/// Trimming takes the white space off an end of a text, and nothing else.
pub proof fn law_trimmed(before: Seq<char>, s: Seq<char>, behind: Seq<char>)
    requires
        blank(before),
        blank(behind),
        s.len() > 0 ==> !is_space(s[0]) && !is_space(s.last()),
    ensures
        trim_end_of(s + behind) == s,
        trim_start_of(before + s) == s,
        trim_of(before + s + behind) == s,
{
    lemma_trim_end_blank(s, behind);
    lemma_trim_start_blank(before, s);
    assert(before + s + behind =~= before + (s + behind));
    lemma_trim_start_blank(before, s + behind);
    if s.len() == 0 {
        assert(s + behind =~= behind);
        lemma_trim_start_blank(behind, s);
        assert(behind + s =~= behind);
    } else {
        lemma_trim_start_concat(s, behind);
    }
}

/// Blanks, tabs and line ends are white space; what is printed is not.
pub proof fn law_white_space(c: char)
    ensures
        is_space(' ') && is_space('\t') && is_space('\n') && is_space('\r'),
        '!' <= c <= '~' ==> !is_space(c),
{
}

/// Every `from` is replaced by `to`, and everything else stays.
pub proof fn law_characters_are_replaced(s: Seq<char>, from: char, to: char, i: int)
    requires
        0 <= i < s.len(),
    ensures
        replace_char_in(s, from, to).len() == s.len(),
        s[i] == from ==> replace_char_in(s, from, to)[i] == to,
        s[i] != from ==> replace_char_in(s, from, to)[i] == s[i],
{
}

/// The numeral of a number is read as that number; so is the numeral behind a plus
/// sign. It has no zero to start with, unless it is that of zero.
pub proof fn law_numerals_are_read_back(n: nat)
    ensures
        numeral_value(decimal(n)) == Some(n),
        numeral_value(seq!['+'] + decimal(n)) == Some(n),
        decimal(n).len() > 0,
        decimal(n).len() > 1 ==> decimal(n)[0] != '0',
    decreases n,
{
    lemma_decimal(n);
    let s = decimal(n);
    assert('0' <= s[0] <= '9');
    assert((seq!['+'] + s).drop_first() =~= s);
}

proof fn lemma_decimal(n: nat)
    ensures
        all_digits(decimal(n)),
        digits_value(decimal(n)) == n,
        decimal(n).len() > 0,
        n > 0 ==> decimal(n)[0] != '0',
        n < 10 ==> decimal(n).len() == 1,
    decreases n,
{
    if n < 10 {
        let s = decimal(n);
        assert(s.drop_last() =~= Seq::<char>::empty());
        assert(digits_value(s.drop_last()) == 0);
    } else {
        lemma_decimal(n / 10);
        let head = decimal(n / 10);
        let s = decimal(n);
        assert(s.drop_last() =~= head);
        assert(s[0] == head[0]);
        assert forall|i: int| 0 <= i < s.len() implies '0' <= #[trigger] s[i] <= '9' by {
            if i < head.len() {
                assert(s[i] == head[i]);
            }
        }
    }
}

/// Digits are read from left to right: a digit behind a number makes ten times the
/// number and the digit.
pub proof fn law_digits_count_in_tens(s: Seq<char>)
    requires
        s.len() > 0,
        all_digits(s),
    ensures
        numeral_value(s + seq!['0']) == Some(10 * digits_value(s)),
        numeral_value(s + seq!['9']) == Some(10 * digits_value(s) + 9),
{
    assert('0' <= s[0] <= '9');
    let a = s + seq!['0'];
    let b = s + seq!['9'];
    assert(a[0] == s[0] && b[0] == s[0]);
    assert(a.drop_last() =~= s);
    assert(b.drop_last() =~= s);
    assert forall|i: int| 0 <= i < a.len() implies '0' <= #[trigger] a[i] <= '9' by {
        if i < s.len() {
            assert(a[i] == s[i]);
        }
    }
    assert forall|i: int| 0 <= i < b.len() implies '0' <= #[trigger] b[i] <= '9' by {
        if i < s.len() {
            assert(b[i] == s[i]);
        }
    }
}

/// Pieces without the separator are found again when a text that they were joined
/// to is split.
pub proof fn law_joined_pieces_are_found(parts: Seq<Seq<char>>, sep: char)
    requires
        parts.len() > 0,
        forall|i: int| 0 <= i < parts.len() ==> !(#[trigger] parts[i]).contains(sep),
    ensures
        split_on(joined(parts, seq![sep]), sep) == parts,
    decreases parts.len(),
{
    let head = parts[0];
    assert forall|j: int| 0 <= j < head.len() implies head[j] != sep by {
        assert(head.contains(head[j]));
    }
    if parts.len() == 1 {
        lemma_first_char_is(head, sep, head.len() as int);
        assert(parts =~= seq![head]);
    } else {
        let rest = parts.drop_first();
        assert forall|i: int| 0 <= i < rest.len() implies !(#[trigger] rest[i]).contains(sep) by {
            assert(rest[i] == parts[i + 1]);
        }
        law_joined_pieces_are_found(rest, sep);
        law_joined(seq![head], rest, seq![sep], head);
        assert(parts =~= seq![head] + rest);
        let s = joined(parts, seq![sep]);
        let n = head.len() as int;
        assert(s =~= head + seq![sep] + joined(rest, seq![sep]));
        assert(s[n] == sep);
        assert forall|j: int| 0 <= j < n implies s[j] != sep by {
            assert(s[j] == head[j]);
        }
        lemma_first_char_is(s, sep, n);
        assert(s.take(n) =~= head);
        assert(s.skip(n + 1) =~= joined(rest, seq![sep]));
    }
}

} // verus!
