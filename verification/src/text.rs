//! Character-sequence helpers shared by the database, the export builder and
//! the dispatcher: splitting on a delimiter, joining, and equality of string
//! slices.
use vstd::prelude::*;

verus! {

/// True when the character `c` occurs somewhere in `s`.
pub open spec fn contains_char(s: Seq<char>, c: char) -> bool {
    exists|i: int| 0 <= i < s.len() && s[i] == c
}

/// The segments of `s` between occurrences of the delimiter `c`, in order.
/// There is always at least one segment: splitting the empty sequence yields
/// one empty segment, and every delimiter adds one more segment.
pub open spec fn split(s: Seq<char>, c: char) -> Seq<Seq<char>>
    decreases s.len(),
{
    if s.len() == 0 {
        seq![Seq::<char>::empty()]
    } else if s[0] == c {
        seq![Seq::<char>::empty()] + split(s.drop_first(), c)
    } else {
        let rest = split(s.drop_first(), c);
        seq![seq![s[0]] + rest.first()] + rest.drop_first()
    }
}

pub proof fn lemma_split_len(s: Seq<char>, c: char)
    ensures
        split(s, c).len() >= 1,
    decreases s.len(),
{
    if s.len() != 0 {
        lemma_split_len(s.drop_first(), c);
    }
}

/// Extending the input by one character either opens a fresh segment (when
/// the character is the delimiter) or extends the last segment.
pub proof fn lemma_split_push(s: Seq<char>, c: char, x: char)
    ensures
        split(s, c).len() >= 1,
        x == c ==> split(s.push(x), c) == split(s, c).push(Seq::<char>::empty()),
        x != c ==> split(s.push(x), c) == split(s, c).update(
            split(s, c).len() - 1,
            split(s, c).last().push(x),
        ),
    decreases s.len(),
{
    lemma_split_len(s, c);
    if s.len() == 0 {
        assert(s.push(x).drop_first() =~= Seq::<char>::empty());
        assert(split(Seq::<char>::empty(), c) == seq![Seq::<char>::empty()]);
        assert(s.push(x)[0] == x);
        if x == c {
            assert(split(s.push(x), c) =~= split(s, c).push(Seq::<char>::empty()));
        } else {
            assert(seq![x] + split(Seq::<char>::empty(), c).first() =~= split(
                s,
                c,
            ).last().push(x));
            assert(split(s.push(x), c) =~= split(s, c).update(
                split(s, c).len() - 1,
                split(s, c).last().push(x),
            ));
        }
    } else {
        lemma_split_push(s.drop_first(), c, x);
        lemma_split_len(s.drop_first(), c);
        assert(s.push(x)[0] == s[0]);
        assert(s.push(x).drop_first() =~= s.drop_first().push(x));
        let tail = split(s.drop_first(), c);
        if s[0] == c {
            if x == c {
                assert(split(s.push(x), c) =~= split(s, c).push(Seq::<char>::empty()));
            } else {
                assert(split(s, c).last() == tail.last());
                assert(split(s.push(x), c) =~= split(s, c).update(
                    split(s, c).len() - 1,
                    split(s, c).last().push(x),
                ));
            }
        } else {
            if x == c {
                assert(tail.push(Seq::<char>::empty()).first() == tail.first());
                assert(tail.push(Seq::<char>::empty()).drop_first() =~= tail.drop_first().push(
                    Seq::<char>::empty(),
                ));
                assert(split(s.push(x), c) =~= split(s, c).push(Seq::<char>::empty()));
            } else {
                let tail2 = tail.update(tail.len() - 1, tail.last().push(x));
                assert(tail2.len() == tail.len());
                if tail.len() == 1 {
                    assert(tail2.first() == tail.first().push(x));
                    assert(seq![s[0]] + tail.first().push(x) =~= (seq![s[0]]
                        + tail.first()).push(x));
                    assert(tail2.drop_first() =~= tail.drop_first());
                    assert(split(s.push(x), c) =~= split(s, c).update(
                        split(s, c).len() - 1,
                        split(s, c).last().push(x),
                    ));
                } else {
                    assert(tail2.first() == tail.first());
                    assert(tail2.drop_first() =~= tail.drop_first().update(
                        tail.drop_first().len() - 1,
                        tail.drop_first().last().push(x),
                    ));
                    assert(split(s, c).last() == tail.last());
                    assert(split(s.push(x), c) =~= split(s, c).update(
                        split(s, c).len() - 1,
                        split(s, c).last().push(x),
                    ));
                }
            }
        }
    }
}

/// Occurrence in a concatenation is occurrence in either part.
pub proof fn lemma_contains_concat(a: Seq<char>, b: Seq<char>, c: char)
    ensures
        contains_char(a + b, c) == (contains_char(a, c) || contains_char(b, c)),
{
    if contains_char(a, c) {
        let i = choose|i: int| 0 <= i < a.len() && a[i] == c;
        assert((a + b)[i] == c);
    }
    if contains_char(b, c) {
        let i = choose|i: int| 0 <= i < b.len() && b[i] == c;
        assert((a + b)[a.len() + i] == c);
    }
    if contains_char(a + b, c) {
        let i = choose|i: int| 0 <= i < (a + b).len() && (a + b)[i] == c;
        if i < a.len() {
            assert(a[i] == c);
        } else {
            assert(b[i - a.len()] == c);
        }
    }
}

/// A sequence free of the delimiter splits into itself alone.
pub proof fn lemma_split_no_delim(s: Seq<char>, c: char)
    requires
        !contains_char(s, c),
    ensures
        split(s, c) == seq![s],
    decreases s.len(),
{
    if s.len() == 0 {
        assert(split(s, c) =~~= seq![s]);
    } else {
        assert(!contains_char(s.drop_first(), c)) by {
            if contains_char(s.drop_first(), c) {
                let i = choose|i: int| 0 <= i < s.drop_first().len() && s.drop_first()[i] == c;
                assert(s[i + 1] == c);
            }
        }
        lemma_split_no_delim(s.drop_first(), c);
        assert(s[0] != c);
        assert(seq![s[0]] + s.drop_first() =~= s);
        assert(split(s, c) =~~= seq![s]);
    }
}

/// Splitting at the first delimiter: everything before it is one segment,
/// and the rest splits on its own.
pub proof fn lemma_split_concat(x: Seq<char>, y: Seq<char>, c: char)
    requires
        !contains_char(x, c),
    ensures
        split(x + seq![c] + y, c) == seq![x] + split(y, c),
    decreases x.len(),
{
    lemma_split_len(y, c);
    if x.len() == 0 {
        assert((x + seq![c] + y)[0] == c);
        assert((x + seq![c] + y).drop_first() =~= y);
        assert(split(x + seq![c] + y, c) =~~= seq![x] + split(y, c));
    } else {
        assert(!contains_char(x.drop_first(), c)) by {
            if contains_char(x.drop_first(), c) {
                let i = choose|i: int| 0 <= i < x.drop_first().len() && x.drop_first()[i] == c;
                assert(x[i + 1] == c);
            }
        }
        lemma_split_concat(x.drop_first(), y, c);
        let s = x + seq![c] + y;
        assert(s[0] == x[0]);
        assert(x[0] != c);
        assert(s.drop_first() =~= x.drop_first() + seq![c] + y);
        let rest = split(s.drop_first(), c);
        assert(rest == seq![x.drop_first()] + split(y, c));
        assert(rest.first() == x.drop_first());
        assert(seq![s[0]] + rest.first() =~= x);
        assert(rest.drop_first() =~= split(y, c));
        assert(split(s, c) =~~= seq![x] + split(y, c));
    }
}

/// Relies on `String::push`: appends exactly one character at the end.
#[verifier::external_body]
pub fn push_char(s: &mut String, c: char)
    ensures
        final(s)@ == old(s)@.push(c),
{
    s.push(c);
}

/// Splits `s` on the delimiter `c` into owned segments.
pub fn split_str(s: &str, c: char) -> (r: Vec<String>)
    ensures
        r.deep_view() == split(s@, c),
        r.len() >= 1,
{
    let n = s.unicode_len();
    let mut done: Vec<String> = Vec::new();
    let mut cur = String::new();
    let mut i: usize = 0;
    proof {
        assert(s@.take(0) =~= Seq::<char>::empty());
        assert(done.deep_view().push(cur@) =~= split(s@.take(0), c));
    }
    while i < n
        invariant
            n == s@.len(),
            i <= n,
            done.deep_view().push(cur@) == split(s@.take(i as int), c),
        decreases n - i,
    {
        let ch = s.get_char(i);
        proof {
            lemma_split_push(s@.take(i as int), c, ch);
            assert(s@.take(i as int).push(ch) =~= s@.take(i + 1 as int));
        }
        if ch == c {
            let ghost prev_done = done.deep_view();
            let ghost prev_cur = cur@;
            done.push(cur);
            cur = String::new();
            proof {
                assert(done.deep_view() =~= prev_done.push(prev_cur));
                assert(done.deep_view().push(cur@) =~= split(s@.take(i + 1 as int), c));
            }
        } else {
            let ghost prev = done.deep_view().push(cur@);
            push_char(&mut cur, ch);
            proof {
                assert(done.deep_view().push(cur@) =~= prev.update(
                    prev.len() - 1,
                    prev.last().push(ch),
                ));
            }
        }
        i = i + 1;
    }
    proof {
        assert(s@.take(n as int) =~= s@);
    }
    let ghost prev_done = done.deep_view();
    let ghost prev_cur = cur@;
    done.push(cur);
    proof {
        assert(done.deep_view() =~= prev_done.push(prev_cur));
    }
    done
}

/// The segments joined with the delimiter `c` between each two.
pub open spec fn join(segs: Seq<Seq<char>>, c: char) -> Seq<char>
    decreases segs.len(),
{
    if segs.len() == 0 {
        Seq::empty()
    } else if segs.len() == 1 {
        segs.first()
    } else {
        segs.first() + seq![c] + join(segs.drop_first(), c)
    }
}

pub proof fn lemma_join_push(segs: Seq<Seq<char>>, c: char, x: Seq<char>)
    ensures
        segs.len() == 0 ==> join(segs.push(x), c) == x,
        segs.len() > 0 ==> join(segs.push(x), c) == join(segs, c) + seq![c] + x,
    decreases segs.len(),
{
    if segs.len() == 0 {
        assert(join(segs.push(x), c) == segs.push(x).first());
        assert(segs.push(x).first() == x);
    } else {
        lemma_join_push(segs.drop_first(), c, x);
        assert(segs.push(x).first() == segs.first());
        assert(segs.push(x).drop_first() =~= segs.drop_first().push(x));
        if segs.len() == 1 {
            assert(join(segs.push(x), c) =~= join(segs, c) + seq![c] + x);
        } else {
            assert(segs.first() + seq![c] + (join(segs.drop_first(), c) + seq![c] + x) =~= (
            segs.first() + seq![c] + join(segs.drop_first(), c)) + seq![c] + x);
        }
    }
}

/// Joins owned segments with the delimiter `c` between each two.
pub fn join_strings(segs: &Vec<String>, c: char) -> (r: String)
    ensures
        r@ == join(segs.deep_view(), c),
{
    let mut out = String::new();
    let n = segs.len();
    let mut i: usize = 0;
    proof {
        assert(segs.deep_view().take(0) =~= Seq::<Seq<char>>::empty());
    }
    while i < n
        invariant
            n == segs.deep_view().len(),
            i <= n,
            out@ == join(segs.deep_view().take(i as int), c),
        decreases n - i,
    {
        if i > 0 {
            push_char(&mut out, c);
        }
        out.append(segs[i].as_str());
        proof {
            lemma_join_push(segs.deep_view().take(i as int), c, segs.deep_view()[i as int]);
            assert(segs.deep_view().take(i as int).push(segs.deep_view()[i as int])
                =~= segs.deep_view().take(i + 1 as int));
            if i > 0 {
                assert(out@ =~= join(segs.deep_view().take(i + 1 as int), c));
            } else {
                assert(out@ =~= join(segs.deep_view().take(1), c));
            }
        }
        i = i + 1;
    }
    proof {
        assert(segs.deep_view().take(n as int) =~= segs.deep_view());
    }
    out
}

/// Whether one of the owned segments equals the given slice.
pub fn contains_string(segs: &Vec<String>, x: &str) -> (r: bool)
    ensures
        r == segs.deep_view().contains(x@),
{
    let n = segs.len();
    let mut i: usize = 0;
    while i < n
        invariant
            n == segs.deep_view().len(),
            i <= n,
            forall|j: int| 0 <= j < i ==> segs.deep_view()[j] != x@,
        decreases n - i,
    {
        if str_eq(segs[i].as_str(), x) {
            proof {
                assert(segs.deep_view()[i as int] == x@);
            }
            return true;
        }
        i = i + 1;
    }
    proof {
        if segs.deep_view().contains(x@) {
            let j = choose|j: int|
                0 <= j < segs.deep_view().len() && segs.deep_view()[j] == x@;
        }
    }
    false
}

/// Relies on `String::pop`: removes and returns the last character, if any.
#[verifier::external_body]
pub fn pop_char(s: &mut String) -> (r: Option<char>)
    ensures
        old(s)@.len() == 0 ==> r is None && final(s)@ == old(s)@,
        old(s)@.len() > 0 ==> r == Some(old(s)@.last()) && final(s)@ == old(s)@.drop_last(),
{
    s.pop()
}

/// The digit character for a value below ten.
pub open spec fn digit_char(n: nat) -> char {
    if n == 0 {
        '0'
    } else if n == 1 {
        '1'
    } else if n == 2 {
        '2'
    } else if n == 3 {
        '3'
    } else if n == 4 {
        '4'
    } else if n == 5 {
        '5'
    } else if n == 6 {
        '6'
    } else if n == 7 {
        '7'
    } else if n == 8 {
        '8'
    } else {
        '9'
    }
}

/// The decimal rendering of a number, most significant digit first.
pub open spec fn decimal(n: nat) -> Seq<char>
    decreases n,
{
    if n < 10 {
        seq![digit_char(n)]
    } else {
        decimal(n / 10) + seq![digit_char(n % 10)]
    }
}

fn digit_str(n: usize) -> (c: char)
    requires
        n < 10,
    ensures
        c == digit_char(n as nat),
{
    if n == 0 {
        '0'
    } else if n == 1 {
        '1'
    } else if n == 2 {
        '2'
    } else if n == 3 {
        '3'
    } else if n == 4 {
        '4'
    } else if n == 5 {
        '5'
    } else if n == 6 {
        '6'
    } else if n == 7 {
        '7'
    } else if n == 8 {
        '8'
    } else {
        '9'
    }
}

/// Appends the decimal rendering of `n`.
pub fn push_decimal(out: &mut String, n: usize)
    ensures
        final(out)@ == old(out)@ + decimal(n as nat),
    decreases n,
{
    if n < 10 {
        push_char(out, digit_str(n));
        proof {
            assert(out@ =~= old(out)@ + decimal(n as nat));
        }
    } else {
        assert(n / 10 < n) by (nonlinear_arith)
            requires
                n >= 10,
        ;
        push_decimal(out, n / 10);
        push_char(out, digit_str(n % 10));
        proof {
            assert(out@ =~= old(out)@ + decimal(n as nat));
        }
    }
}

/// Equality of two string slices, decided character by character.
pub fn str_eq(a: &str, b: &str) -> (r: bool)
    ensures
        r == (a@ == b@),
{
    let na = a.unicode_len();
    let nb = b.unicode_len();
    if na != nb {
        return false;
    }
    let mut i: usize = 0;
    while i < na
        invariant
            na == a@.len(),
            na == b@.len(),
            i <= na,
            forall|j: int| 0 <= j < i ==> a@[j] == b@[j],
        decreases na - i,
    {
        if a.get_char(i) != b.get_char(i) {
            return false;
        }
        i = i + 1;
    }
    proof {
        assert(a@ =~= b@);
    }
    true
}

} // verus!
