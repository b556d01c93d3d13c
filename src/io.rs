use vstd::prelude::*;
use vstd::string::StrSliceExecFns;

verus! {

/// One of two values.
#[derive(Debug)]
pub enum Either<L, R> {
    Left(L),
    Right(R),
}

impl<L, R> Either<L, R> {
    /// The left value; the value is a `Left`.
    pub fn unwrap_left(&self) -> (r: &L)
        requires
            self is Left,
        ensures
            *r == self->Left_0,
    {
        match self {
            Either::Left(l) => l,
            Either::Right(_) => vstd::pervasive::unreached(),
        }
    }

    /// The right value; the value is a `Right`.
    pub fn unwrap_right(&self) -> (r: &R)
        requires
            self is Right,
        ensures
            *r == self->Right_0,
    {
        match self {
            Either::Right(r) => r,
            Either::Left(_) => vstd::pervasive::unreached(),
        }
    }
}

/// The QR algorithm that a matrix file asks for.
#[derive(Debug, Clone, Copy, PartialEq, Eq, Structural)]
pub enum QRMethod {
    Householder,
    Givens,
    GramSchmidt,
}

/// A space, tab, line feed, vertical tab, form feed or carriage return.
pub open spec fn is_space(c: char) -> bool {
    c == ' ' || c == '\t' || c == '\n' || c == '\r' || c == '\x0B' || c == '\x0C'
}

/// The number of leading spaces.
pub open spec fn leading_spaces(s: Seq<char>) -> nat
    decreases s.len(),
{
    if s.len() > 0 && is_space(s[0]) {
        1 + leading_spaces(s.skip(1))
    } else {
        0
    }
}

/// The method that a header `Method=<digit>` selects, after leading spaces; the position just
/// past the digit.
pub open spec fn method_header(s: Seq<char>) -> Option<(QRMethod, int)> {
    let p = leading_spaces(s) as int;
    if p + 8 <= s.len() && s.subrange(p, p + 7) == seq!['M', 'e', 't', 'h', 'o', 'd', '='] {
        let d = s[p + 7];
        if d == '1' {
            Some((QRMethod::Householder, p + 8))
        } else if d == '2' {
            Some((QRMethod::Givens, p + 8))
        } else if d == '3' {
            Some((QRMethod::GramSchmidt, p + 8))
        } else {
            None
        }
    } else {
        None
    }
}

proof fn lemma_leading_spaces(s: Seq<char>, i: int)
    requires
        0 <= i <= s.len(),
        forall|k: int| 0 <= k < i ==> is_space(#[trigger] s[k]),
        i == s.len() || !is_space(s[i]),
    ensures
        leading_spaces(s) == i,
    decreases i,
{
    if i > 0 {
        lemma_leading_spaces(s.skip(1), i - 1);
    } else if s.len() > 0 {
        assert(!is_space(s[0]));
    }
}

/// Reads an optional `Method=1|2|3` header: the method and the text after it, or `None` and the
/// whole text.
pub fn read_method<'a>(s: &'a str) -> (r: (Option<QRMethod>, &'a str))
    ensures
        method_header(s@) matches Some((m, p)) ==> r.0 == Some(m) && r.1@ == s@.skip(p),
        method_header(s@) is None ==> r.0 is None && r.1@ == s@,
{
    let len = s.unicode_len();
    let mut p: usize = 0;
    while p < len && is_space_char(s.get_char(p))
        invariant
            len == s@.len(),
            p <= len,
            forall|k: int| 0 <= k < p ==> is_space(#[trigger] s@[k]),
        decreases len - p,
    {
        p = p + 1;
    }
    proof {
        lemma_leading_spaces(s@, p as int);
    }
    let ghost header = seq!['M', 'e', 't', 'h', 'o', 'd', '='];
    if len - p < 8 {
        return (None, s);
    }
    let mut k: usize = 0;
    while k < 7
        invariant
            len == s@.len(),
            p + 8 <= len,
            leading_spaces(s@) == p,
            k <= 7,
            header == seq!['M', 'e', 't', 'h', 'o', 'd', '='],
            forall|q: int| 0 <= q < k ==> s@[p + q] == header[q],
        decreases 7 - k,
    {
        let c = s.get_char(p + k);
        let expected = header_char(k);
        if c != expected {
            assert(s@.subrange(p as int, p + 7)[k as int] != header[k as int]);
            assert(s@.subrange(p as int, p + 7) != header);
            return (None, s);
        }
        k = k + 1;
    }
    assert(s@.subrange(p as int, p + 7) =~= header);
    let d = s.get_char(p + 7);
    let m = if d == '1' {
        QRMethod::Householder
    } else if d == '2' {
        QRMethod::Givens
    } else if d == '3' {
        QRMethod::GramSchmidt
    } else {
        return (None, s);
    };
    let rest = s.substring_char(p + 8, len);
    assert(rest@ =~= s@.skip(p + 8));
    (Some(m), rest)
}

/// Character `k` of `Method=`.
fn header_char(k: usize) -> (c: char)
    requires
        k < 7,
    ensures
        c == seq!['M', 'e', 't', 'h', 'o', 'd', '='][k as int],
{
    match k {
        0 => 'M',
        1 => 'e',
        2 => 't',
        3 => 'h',
        4 => 'o',
        5 => 'd',
        _ => '=',
    }
}

fn is_space_char(c: char) -> (r: bool)
    ensures
        r == is_space(c),
{
    c == ' ' || c == '\t' || c == '\n' || c == '\r' || c == '\x0B' || c == '\x0C'
}

} // verus!
