//! Finding the destination of a request in its `Host` line.
use vstd::prelude::*;

use crate::error::ClientError;

verus! {

/// The port used when the host specifier names none.
pub const DEFAULT_PORT: u16 = 80;

/// Unicode `White_Space`, the set that `char::is_whitespace` tests.
pub open spec fn is_space(c: char) -> bool {
    let u = c as u32;
    ||| 0x9 <= u <= 0xd
    ||| u == 0x20
    ||| u == 0x85
    ||| u == 0xa0
    ||| u == 0x1680
    ||| 0x2000 <= u <= 0x200a
    ||| u == 0x2028
    ||| u == 0x2029
    ||| u == 0x202f
    ||| u == 0x205f
    ||| u == 0x3000
}

/// The position of the first `c` in `s`, or `s.len()` when there is none.
pub open spec fn index_of(s: Seq<char>, c: char) -> nat
    decreases s.len(),
{
    if s.len() == 0 || s[0] == c {
        0
    } else {
        1 + index_of(s.drop_first(), c)
    }
}

/// A line whose first four characters are `Host`.
pub open spec fn starts_with_host(l: Seq<char>) -> bool {
    l.len() >= 4 && l.take(4) == seq!['H', 'o', 's', 't']
}

/// The first line of `t` (lines end at `\n`) that starts with `Host`.
pub open spec fn host_line(t: Seq<char>) -> Option<Seq<char>>
    decreases t.len(),
{
    if t.len() == 0 {
        None
    } else {
        let b = index_of(t, '\n');
        if starts_with_host(t.take(b as int)) {
            Some(t.take(b as int))
        } else if b < t.len() {
            host_line(t.skip(b + 1int))
        } else {
            None
        }
    }
}

/// `l` without its trailing whitespace.
pub open spec fn trim_end(l: Seq<char>) -> Seq<char>
    decreases l.len(),
{
    if l.len() > 0 && is_space(l.last()) {
        trim_end(l.drop_last())
    } else {
        l
    }
}

/// The longest suffix of `l` that holds no whitespace.
pub open spec fn trailing_word(l: Seq<char>) -> Seq<char>
    decreases l.len(),
{
    if l.len() > 0 && !is_space(l.last()) {
        trailing_word(l.drop_last()).push(l.last())
    } else {
        seq![]
    }
}

/// The last whitespace-separated field of a line.
pub open spec fn last_field(l: Seq<char>) -> Seq<char> {
    trailing_word(trim_end(l))
}

/// An ASCII decimal digit.
pub open spec fn is_digit(c: char) -> bool {
    '0' <= c <= '9'
}

/// Every character of `d` is a decimal digit.
pub open spec fn all_digits(d: Seq<char>) -> bool {
    forall|i: int| 0 <= i < d.len() ==> is_digit(#[trigger] d[i])
}

/// The number that a string of decimal digits denotes.
pub open spec fn decimal_value(d: Seq<char>) -> nat
    decreases d.len(),
{
    if d.len() == 0 {
        0
    } else {
        decimal_value(d.drop_last()) * 10 + (d.last() as nat - '0' as nat) as nat
    }
}

/// The digits of a port: a single leading `+` is allowed before them.
pub open spec fn port_digits(s: Seq<char>) -> Seq<char> {
    if s.len() > 1 && s[0] == '+' {
        s.drop_first()
    } else {
        s
    }
}

/// The port that `s` denotes, as `u16`'s `FromStr` reads it.
pub open spec fn port_value(s: Seq<char>) -> Option<u16> {
    let d = port_digits(s);
    if d.len() > 0 && all_digits(d) && decimal_value(d) <= u16::MAX {
        Some(decimal_value(d) as u16)
    } else {
        None
    }
}

/// Host and port of a host specifier `host` or `host:port`. The host must not
/// be empty, and a specifier with more than one `:` is not taken apart.
pub open spec fn split_target(f: Seq<char>) -> Result<(Seq<char>, u16), ClientError> {
    let k = index_of(f, ':');
    if k == 0 {
        Err(ClientError::NoHostFound)
    } else if k >= f.len() {
        Ok((f, DEFAULT_PORT))
    } else {
        let rest = f.skip(k + 1int);
        if index_of(rest, ':') < rest.len() {
            Err(ClientError::NoHostFound)
        } else {
            match port_value(rest) {
                Some(p) => Ok((f.take(k as int), p)),
                None => Err(ClientError::PortParseError),
            }
        }
    }
}

/// The destination that a request text names.
pub open spec fn host_target(t: Seq<char>) -> Result<(Seq<char>, u16), ClientError> {
    match host_line(t) {
        None => Err(ClientError::NoHostFound),
        Some(l) => split_target(last_field(l)),
    }
}

/// A routing result as plain values.
pub open spec fn target_view(r: Result<(String, u16), ClientError>) -> Result<
    (Seq<char>, u16),
    ClientError,
> {
    match r {
        Ok((h, p)) => Ok((h@, p)),
        Err(e) => Err(e),
    }
}

/// The characters of `s`, one by one.
fn chars_of(s: &str) -> (r: Vec<char>)
    ensures
        r@ == s@,
{
    let mut r: Vec<char> = Vec::new();
    for c in it: s.chars()
        invariant
            it.seq() == s@,
            r@ == it.seq().take(it.index() as int),
    {
        r.push(c);
    }
    r
}

/// The text that opens a host line in its usual form.
pub open spec fn host_prefix() -> Seq<char> {
    seq!['H', 'o', 's', 't', ':', ' ']
}

proof fn lemma_index_of_bounds(s: Seq<char>, c: char)
    ensures
        index_of(s, c) <= s.len(),
        index_of(s, c) < s.len() ==> s[index_of(s, c) as int] == c,
        forall|j: int| 0 <= j < index_of(s, c) ==> s[j] != c,
    decreases s.len(),
{
    if s.len() > 0 && s[0] != c {
        lemma_index_of_bounds(s.drop_first(), c);
        assert forall|j: int| 0 <= j < index_of(s, c) implies s[j] != c by {
            if j > 0 {
                assert(s.drop_first()[j - 1] == s[j]);
            }
        }
    }
}

proof fn lemma_index_of_concat(a: Seq<char>, b: Seq<char>, c: char)
    ensures
        index_of(a + b, c) == if index_of(a, c) < a.len() {
            index_of(a, c)
        } else {
            a.len() + index_of(b, c)
        },
    decreases a.len(),
{
    lemma_index_of_bounds(a, c);
    if a.len() == 0 {
        assert(a + b =~= b);
    } else {
        assert((a + b)[0] == a[0]);
        if a[0] != c {
            assert((a + b).drop_first() =~= a.drop_first() + b);
            lemma_index_of_concat(a.drop_first(), b, c);
        }
    }
}

/// Lines that do not start with `Host` are passed over.
proof fn lemma_skip_lines(pre: Seq<char>, rest: Seq<char>)
    requires
        pre.len() == 0 || pre.last() == '\n',
        host_line(pre) is None,
    ensures
        host_line(pre + rest) == host_line(rest),
    decreases pre.len(),
{
    if pre.len() == 0 {
        assert(pre + rest =~= rest);
    } else {
        let b = index_of(pre, '\n');
        lemma_index_of_bounds(pre, '\n');
        lemma_index_of_concat(pre, rest, '\n');
        assert(b < pre.len());
        assert((pre + rest).take(b as int) =~= pre.take(b as int));
        assert((pre + rest).skip(b + 1int) =~= pre.skip(b + 1int) + rest);
        let p2 = pre.skip(b + 1int);
        assert(p2.len() == 0 || p2.last() == pre.last());
        lemma_skip_lines(p2, rest);
    }
}

proof fn lemma_trim_spaces(x: Seq<char>, w: Seq<char>)
    requires
        forall|i: int| 0 <= i < w.len() ==> is_space(#[trigger] w[i]),
    ensures
        trim_end(x + w) == trim_end(x),
    decreases w.len(),
{
    if w.len() == 0 {
        assert(x + w =~= x);
    } else {
        assert((x + w).last() == w.last());
        assert((x + w).drop_last() =~= x + w.drop_last());
        lemma_trim_spaces(x, w.drop_last());
    }
}

proof fn lemma_trailing_word(x: Seq<char>, h: Seq<char>)
    requires
        x.len() == 0 || is_space(x.last()),
        forall|i: int| 0 <= i < h.len() ==> !is_space(#[trigger] h[i]),
    ensures
        trailing_word(x + h) == h,
    decreases h.len(),
{
    if h.len() == 0 {
        assert(x + h =~= x);
    } else {
        assert((x + h).last() == h.last());
        assert((x + h).drop_last() =~= x + h.drop_last());
        lemma_trailing_word(x, h.drop_last());
        assert(h.drop_last().push(h.last()) =~= h);
    }
}

/// A request routes by its first line that starts with `Host`: where that line
/// reads `Host: ` and a host specifier `f`, with only whitespace after it,
/// the destination is the one `f` names, whatever lines come before or after.
pub proof fn lemma_host_line_routes(pre: Seq<char>, f: Seq<char>, post: Seq<char>)
    requires
        pre.len() == 0 || pre.last() == '\n',
        host_line(pre) is None,
        f.len() > 0,
        forall|i: int| 0 <= i < f.len() ==> !is_space(#[trigger] f[i]),
        forall|i: int| 0 <= i < index_of(post, '\n') ==> is_space(#[trigger] post[i]),
    ensures
        host_target(pre + host_prefix() + f + post) == split_target(f),
{
    let x = host_prefix();
    let t = x + f + post;
    assert(pre + x + f + post =~= pre + t);
    lemma_skip_lines(pre, t);
    lemma_index_of_bounds(x, '\n');
    lemma_index_of_bounds(f, '\n');
    lemma_index_of_bounds(post, '\n');
    assert(index_of(x, '\n') == x.len()) by {
        if index_of(x, '\n') < x.len() {
            assert(x[index_of(x, '\n') as int] != '\n');
        }
    }
    assert(index_of(f, '\n') == f.len()) by {
        if index_of(f, '\n') < f.len() {
            assert(!is_space(f[index_of(f, '\n') as int]));
        }
    }
    lemma_index_of_concat(x, f, '\n');
    lemma_index_of_concat(x + f, post, '\n');
    let k = index_of(post, '\n');
    let w = post.take(k as int);
    let line = t.take((x.len() + f.len() + k) as int);
    assert(line =~= (x + f) + w);
    assert(line.take(4) =~= seq!['H', 'o', 's', 't']);
    assert(host_line(t) == Some(line));
    lemma_trim_spaces(x + f, w);
    assert((x + f).last() == f.last());
    assert(trim_end(x + f) == x + f);
    lemma_trailing_word(x, f);
}

/// A non-empty host specifier without `:` is the host itself, on port 80.
pub proof fn lemma_split_host_only(h: Seq<char>)
    requires
        h.len() > 0,
        forall|i: int| 0 <= i < h.len() ==> h[i] != ':',
    ensures
        split_target(h) == Ok::<(Seq<char>, u16), ClientError>((h, DEFAULT_PORT)),
{
    lemma_index_of_bounds(h, ':');
}

/// A host specifier `h:p` names host `h` on port `p` where `p` is a port
/// number, and fails with a port error where it is not.
pub proof fn lemma_split_host_port(h: Seq<char>, p: Seq<char>)
    requires
        h.len() > 0,
        forall|i: int| 0 <= i < h.len() ==> h[i] != ':',
        forall|i: int| 0 <= i < p.len() ==> p[i] != ':',
    ensures
        split_target(h + seq![':'] + p) == match port_value(p) {
            Some(n) => Ok::<(Seq<char>, u16), ClientError>((h, n)),
            None => Err(ClientError::PortParseError),
        },
{
    let f = h + seq![':'] + p;
    lemma_index_of_bounds(h, ':');
    lemma_index_of_bounds(p, ':');
    lemma_index_of_concat(h, seq![':'] + p, ':');
    assert(f =~= h + (seq![':'] + p));
    assert((seq![':'] + p)[0] == ':');
    assert(f.skip(h.len() + 1int) =~= p);
    assert(f.take(h.len() as int) =~= h);
}

/// A host specifier with nothing before its first `:`, or an empty one,
/// names no host.
pub proof fn lemma_split_empty_host(f: Seq<char>)
    requires
        f.len() == 0 || f[0] == ':',
    ensures
        split_target(f) == Err::<(Seq<char>, u16), ClientError>(ClientError::NoHostFound),
{
}

/// A host specifier with more than one `:` (an IPv6 literal, say) is not
/// taken apart: the request counts as naming no host.
pub proof fn lemma_split_many_colons(f: Seq<char>, i: int, j: int)
    requires
        0 <= i < j < f.len(),
        f[i] == ':',
        f[j] == ':',
    ensures
        split_target(f) == Err::<(Seq<char>, u16), ClientError>(ClientError::NoHostFound),
{
    lemma_index_of_bounds(f, ':');
    let k = index_of(f, ':');
    assert(k <= i);
    let rest = f.skip(k + 1int);
    lemma_index_of_bounds(rest, ':');
    let m = index_of(rest, ':');
    assert(rest[j - k - 1] == ':');
    assert(m <= j - k - 1);
}

/// A request in which no line starts with `Host` names no host.
pub proof fn lemma_no_host_line(t: Seq<char>)
    requires
        forall|i: int|
            0 <= i <= t.len() && (i == 0 || t[i - 1] == '\n') ==> !starts_with_host(
                #[trigger] t.skip(i),
            ),
    ensures
        host_target(t) == Err::<(Seq<char>, u16), ClientError>(ClientError::NoHostFound),
    decreases t.len(),
{
    if t.len() > 0 {
        let b = index_of(t, '\n');
        lemma_index_of_bounds(t, '\n');
        assert(t.skip(0) =~= t);
        if starts_with_host(t.take(b as int)) {
            assert(t.take(b as int).take(4) =~= t.take(4));
            assert(t.skip(0).take(4) =~= t.take(4));
        }
        if b < t.len() {
            let t2 = t.skip(b + 1int);
            assert forall|i: int|
                0 <= i <= t2.len() && (i == 0 || t2[i - 1] == '\n') implies !starts_with_host(
                #[trigger] t2.skip(i),
            ) by {
                assert(t2.skip(i) =~= t.skip(b + 1 + i));
                if i > 0 {
                    assert(t2[i - 1] == t[b + i]);
                }
            }
            lemma_no_host_line(t2);
        }
    }
}

fn is_space_char(c: char) -> (r: bool)
    ensures
        r == is_space(c),
{
    let u = c as u32;
    (0x9 <= u && u <= 0xd) || u == 0x20 || u == 0x85 || u == 0xa0 || u == 0x1680 || (0x2000 <= u
        && u <= 0x200a) || u == 0x2028 || u == 0x2029 || u == 0x202f || u == 0x205f || u == 0x3000
}

/// The position of the first `c` in `cs[from..to]`, or `to`.
fn find_in(cs: &Vec<char>, from: usize, to: usize, c: char) -> (r: usize)
    requires
        from <= to <= cs.len(),
    ensures
        from <= r <= to,
        r == from + index_of(cs@.subrange(from as int, to as int), c),
{
    let mut i: usize = from;
    while i < to && cs[i] != c
        invariant
            from <= i <= to <= cs.len(),
            from + index_of(cs@.subrange(from as int, to as int), c) == i + index_of(
                cs@.subrange(i as int, to as int),
                c,
            ),
        decreases to - i,
    {
        assert(cs@.subrange(i as int, to as int).drop_first() =~= cs@.subrange(
            i + 1,
            to as int,
        ));
        i = i + 1;
    }
    i
}

fn starts_with_host_at(cs: &Vec<char>, a: usize, b: usize) -> (r: bool)
    requires
        a <= b <= cs.len(),
    ensures
        r == starts_with_host(cs@.subrange(a as int, b as int)),
{
    let l = Ghost(cs@.subrange(a as int, b as int));
    if b - a >= 4 && cs[a] == 'H' && cs[a + 1] == 'o' && cs[a + 2] == 's' && cs[a + 3] == 't' {
        assert(l@.take(4) =~= seq!['H', 'o', 's', 't']);
        true
    } else {
        proof {
            if l@.len() >= 4 {
                assert(l@.take(4)[0] == l@[0]);
                assert(l@.take(4)[1] == l@[1]);
                assert(l@.take(4)[2] == l@[2]);
                assert(l@.take(4)[3] == l@[3]);
            }
        }
        false
    }
}

/// The bounds of the first line of `cs` that starts with `Host`.
fn find_host_line(cs: &Vec<char>) -> (r: Option<(usize, usize)>)
    ensures
        match host_line(cs@) {
            None => r is None,
            Some(l) => r matches Some((a, b)) && a <= b <= cs.len() && cs@.subrange(
                a as int,
                b as int,
            ) == l,
        },
{
    let n = cs.len();
    let mut a: usize = 0;
    assert(cs@.skip(0) =~= cs@);
    while a < n
        invariant
            a <= n == cs.len(),
            host_line(cs@) == host_line(cs@.skip(a as int)),
        decreases n - a,
    {
        let b = find_in(cs, a, n, '\n');
        let ghost t = cs@.skip(a as int);
        assert(t =~= cs@.subrange(a as int, n as int));
        assert(t.take(b - a) =~= cs@.subrange(a as int, b as int));
        if starts_with_host_at(cs, a, b) {
            return Some((a, b));
        }
        if b == n {
            return None;
        }
        assert(t.skip(b - a + 1) =~= cs@.skip(b + 1));
        a = b + 1;
    }
    None
}

/// The bounds of the last whitespace-separated field of `cs[a..b]`.
fn last_field_bounds(cs: &Vec<char>, a: usize, b: usize) -> (r: (usize, usize))
    requires
        a <= b <= cs.len(),
    ensures
        a <= r.0 <= r.1 <= b,
        cs@.subrange(r.0 as int, r.1 as int) == last_field(cs@.subrange(a as int, b as int)),
{
    let mut e: usize = b;
    while e > a && is_space_char(cs[e - 1])
        invariant
            a <= e <= b <= cs.len(),
            trim_end(cs@.subrange(a as int, b as int)) == trim_end(
                cs@.subrange(a as int, e as int),
            ),
        decreases e,
    {
        assert(cs@.subrange(a as int, e as int).drop_last() =~= cs@.subrange(
            a as int,
            e - 1,
        ));
        e = e - 1;
    }
    let mut s: usize = e;
    assert(cs@.subrange(e as int, e as int) =~= Seq::<char>::empty());
    while s > a && !is_space_char(cs[s - 1])
        invariant
            a <= s <= e <= b <= cs.len(),
            trim_end(cs@.subrange(a as int, b as int)) == cs@.subrange(a as int, e as int),
            trailing_word(cs@.subrange(a as int, e as int)) == trailing_word(
                cs@.subrange(a as int, s as int),
            ) + cs@.subrange(s as int, e as int),
        decreases s,
    {
        let ghost pre = cs@.subrange(a as int, s as int);
        assert(pre.drop_last() =~= cs@.subrange(a as int, s - 1));
        assert(cs@.subrange(s - 1, e as int) =~= seq![pre.last()] + cs@.subrange(
            s as int,
            e as int,
        ));
        assert(trailing_word(pre) == trailing_word(pre.drop_last()).push(pre.last()));
        assert(trailing_word(pre.drop_last()).push(pre.last()) + cs@.subrange(s as int, e as int)
            =~= trailing_word(pre.drop_last()) + cs@.subrange(s - 1, e as int));
        s = s - 1;
    }
    assert(trailing_word(cs@.subrange(a as int, s as int)) =~= Seq::<char>::empty());
    assert(Seq::<char>::empty() + cs@.subrange(s as int, e as int) =~= cs@.subrange(
        s as int,
        e as int,
    ));
    (s, e)
}

proof fn lemma_capped_step(x: nat, d: nat)
    requires
        d < 10,
    ensures
        (if x < 65536 { x } else { 65536nat }) * 10 + d >= 65536 <==> x * 10 + d >= 65536,
        x * 10 + d < 65536 ==> x < 65536,
{
    assert(x >= 65536 ==> x * 10 + d >= 65536) by (nonlinear_arith);
}

/// The port that `cs[s..e]` denotes.
fn parse_port(cs: &Vec<char>, s: usize, e: usize) -> (r: Option<u16>)
    requires
        s <= e <= cs.len(),
    ensures
        r == port_value(cs@.subrange(s as int, e as int)),
{
    let ghost f = cs@.subrange(s as int, e as int);
    let start: usize = if e - s > 1 && cs[s] == '+' {
        s + 1
    } else {
        s
    };
    assert(port_digits(f) =~= cs@.subrange(start as int, e as int));
    if start == e {
        return None;
    }
    let mut v: u32 = 0;
    let mut i: usize = start;
    assert(cs@.subrange(start as int, start as int) =~= Seq::<char>::empty());
    while i < e
        invariant
            start <= i <= e <= cs.len(),
            f == cs@.subrange(s as int, e as int),
            port_digits(f) == cs@.subrange(start as int, e as int),
            all_digits(cs@.subrange(start as int, i as int)),
            v == if decimal_value(cs@.subrange(start as int, i as int)) < 65536 {
                decimal_value(cs@.subrange(start as int, i as int))
            } else {
                65536nat
            },
        decreases e - i,
    {
        let c = cs[i];
        let ghost d = cs@.subrange(start as int, i + 1);
        assert(d.drop_last() =~= cs@.subrange(start as int, i as int));
        if !('0' <= c && c <= '9') {
            assert(!is_digit(d[i - start]));
            assert(!all_digits(cs@.subrange(start as int, e as int))) by {
                assert(cs@.subrange(start as int, e as int)[i - start] == c);
            }
            return None;
        }
        let digit = (c as u32) - ('0' as u32);
        proof {
            lemma_capped_step(decimal_value(d.drop_last()), digit as nat);
        }
        v = if v * 10 + digit >= 65536 {
            65536
        } else {
            v * 10 + digit
        };
        i = i + 1;
    }
    if v > 65535 {
        None
    } else {
        Some(v as u16)
    }
}

/// The destination named by a request: the host and port of the last
/// whitespace-separated field of its first line that starts with `Host`,
/// with the port 80 where the field has no `:`.
pub fn get_host(request: &String) -> (r: Result<(String, u16), ClientError>)
    ensures
        target_view(r) == host_target(request@),
        r matches Ok((host, _)) ==> host@.len() > 0,
{
    let text = request.as_str();
    let cs = chars_of(text);
    match find_host_line(&cs) {
        None => Err(ClientError::NoHostFound),
        Some((a, b)) => {
            let (s, e) = last_field_bounds(&cs, a, b);
            let ghost f = cs@.subrange(s as int, e as int);
            let k = find_in(&cs, s, e, ':');
            if k == s {
                Err(ClientError::NoHostFound)
            } else if k == e {
                let host = text.substring_char(s, e).to_owned();
                Ok((host, DEFAULT_PORT))
            } else {
                assert(f.skip(k - s + 1) =~= cs@.subrange(k + 1, e as int));
                assert(f.take(k - s) =~= cs@.subrange(s as int, k as int));
                let k2 = find_in(&cs, k + 1, e, ':');
                if k2 < e {
                    Err(ClientError::NoHostFound)
                } else {
                    match parse_port(&cs, k + 1, e) {
                        Some(port) => {
                            let host = text.substring_char(s, k).to_owned();
                            Ok((host, port))
                        },
                        None => Err(ClientError::PortParseError),
                    }
                }
            }
        },
    }
}

} // verus!
