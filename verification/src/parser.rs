//! The tab-separated container listing that `ps --format` prints: one row per
//! line with id, image, name, state and status; blank lines are skipped and the
//! first malformed row is reported by its line number.
use vstd::prelude::*;
use crate::domain::{Backend, Container, ContainerView};
use crate::text::{blank, chars_of, decimal_text, is_blank, push_decimal, string_from};

verus! {

// ---------------------------------------------------------------------------
// Lines and fields
// ---------------------------------------------------------------------------
/// The position of the first `c` in `s`, or `s.len()` when there is none.
pub open spec fn first_index(s: Seq<char>, c: char) -> nat
    decreases s.len(),
{
    if s.len() == 0 {
        0
    } else if s[0] == c {
        0
    } else {
        1 + first_index(s.drop_first(), c)
    }
}

/// `t` without one trailing carriage return.
pub open spec fn strip_cr(t: Seq<char>) -> Seq<char> {
    if t.len() > 0 && t.last() == '\r' {
        t.drop_last()
    } else {
        t
    }
}

/// The lines of `s` as `str::lines` yields them: split after each `\n`, which
/// is dropped together with a `\r` just before it; a last line without `\n`
/// is kept as it is, and nothing follows a final `\n`.
pub open spec fn text_lines(s: Seq<char>) -> Seq<Seq<char>>
    decreases s.len(),
{
    if s.len() == 0 {
        Seq::empty()
    } else if first_index(s, '\n') >= s.len() {
        seq![s]
    } else {
        let k = first_index(s, '\n') as int;
        seq![strip_cr(s.take(k))] + text_lines(s.skip(k + 1))
    }
}

/// The pieces of `s` as `s.splitn(n, '\t')` yields them: at most `n` pieces,
/// the last holding the rest of `s`, tabs included.
pub open spec fn split_tabs(s: Seq<char>, n: nat) -> Seq<Seq<char>>
    decreases n,
{
    if n == 0 {
        Seq::empty()
    } else if n == 1 || first_index(s, '\t') >= s.len() {
        seq![s]
    } else {
        let k = first_index(s, '\t') as int;
        seq![s.take(k)] + split_tabs(s.skip(k + 1), (n - 1) as nat)
    }
}

/// The container that one listing line describes, if it has five non-empty
/// fields.
pub open spec fn parse_row(backend: Backend, line: Seq<char>) -> Option<ContainerView> {
    let f = split_tabs(line, 5);
    if f.len() == 5 && f[0].len() > 0 && f[1].len() > 0 && f[2].len() > 0 && f[3].len() > 0
        && f[4].len() > 0 {
        Some(
            ContainerView {
                backend,
                id: f[0],
                image: f[1],
                name: f[2],
                state: f[3],
                status: f[4],
            },
        )
    } else {
        None
    }
}

/// Parses `lines`, the first of which has number `number`: blank lines are
/// skipped, and the first line that is not a row gives its number as error.
pub open spec fn parse_lines(backend: Backend, lines: Seq<Seq<char>>, number: nat) -> Result<
    Seq<ContainerView>,
    nat,
>
    decreases lines.len(),
{
    if lines.len() == 0 {
        Ok(Seq::empty())
    } else if is_blank(lines[0]) {
        parse_lines(backend, lines.drop_first(), number + 1)
    } else {
        match parse_row(backend, lines[0]) {
            None => Err(number),
            Some(c) => match parse_lines(backend, lines.drop_first(), number + 1) {
                Ok(rest) => Ok(seq![c] + rest),
                Err(n) => Err(n),
            },
        }
    }
}

/// The containers a whole listing describes, or the number (from 1) of its
/// first malformed line.
pub open spec fn parse_listing(backend: Backend, output: Seq<char>) -> Result<
    Seq<ContainerView>,
    nat,
> {
    parse_lines(backend, text_lines(output), 1)
}

/// The views of a list of containers.
pub open spec fn container_views(v: Seq<Container>) -> Seq<ContainerView> {
    v.map_values(|c: Container| c@)
}

spec fn prepend(done: Seq<ContainerView>, r: Result<Seq<ContainerView>, nat>) -> Result<
    Seq<ContainerView>,
    nat,
> {
    match r {
        Ok(rest) => Ok(done + rest),
        Err(n) => Err(n),
    }
}

proof fn lemma_first_index(s: Seq<char>, c: char, k: int)
    requires
        0 <= k <= s.len(),
        k < s.len() ==> s[k] == c,
        forall|i: int| 0 <= i < k ==> s[i] != c,
    ensures
        first_index(s, c) == k,
    decreases k,
{
    if k > 0 {
        lemma_first_index(s.drop_first(), c, k - 1);
    }
}

/// The first position of `c` in `v@[from..to]`, or `to`.
fn find_char(v: &Vec<char>, c: char, from: usize, to: usize) -> (r: usize)
    requires
        from <= to <= v@.len(),
    ensures
        from <= r <= to,
        r < to ==> v@[r as int] == c,
        first_index(v@.subrange(from as int, to as int), c) == r - from,
{
    let mut i = from;
    while i < to && v[i] != c
        invariant
            from <= i <= to <= v@.len(),
            forall|t: int| from <= t < i ==> v@[t] != c,
        decreases to - i,
    {
        i = i + 1;
    }
    proof {
        let s = v@.subrange(from as int, to as int);
        assert forall|t: int| 0 <= t < i - from implies s[t] != c by {
            assert(s[t] == v@[from + t]);
        }
        if i < to {
            assert(s[i - from] == v@[i as int]);
        }
        lemma_first_index(s, c, i - from);
    }
    i
}

proof fn lemma_split_step(v: Seq<char>, a: int, to: int, k: int, n: nat)
    requires
        0 <= a <= k < to <= v.len(),
        n >= 2,
        first_index(v.subrange(a, to), '\t') == k - a,
    ensures
        split_tabs(v.subrange(a, to), n) == seq![v.subrange(a, k)] + split_tabs(
            v.subrange(k + 1, to),
            (n - 1) as nat,
        ),
{
    let s = v.subrange(a, to);
    assert(s.take(k - a) =~= v.subrange(a, k));
    assert(s.skip(k - a + 1) =~= v.subrange(k + 1, to));
}

/// The container that line `v@[from..to]` describes, if it is a row.
fn parse_row_at(backend: Backend, v: &Vec<char>, from: usize, to: usize) -> (r: Option<Container>)
    requires
        from <= to <= v@.len(),
    ensures
        match r {
            Some(c) => parse_row(backend, v@.subrange(from as int, to as int)) == Some(c@),
            None => parse_row(backend, v@.subrange(from as int, to as int)) is None,
        },
{
    let ghost line = v@.subrange(from as int, to as int);
    let k1 = find_char(v, '\t', from, to);
    if k1 == to {
        return None;
    }
    let k2 = find_char(v, '\t', k1 + 1, to);
    if k2 == to {
        proof {
            lemma_split_step(v@, from as int, to as int, k1 as int, 5);
        }
        return None;
    }
    let k3 = find_char(v, '\t', k2 + 1, to);
    if k3 == to {
        proof {
            lemma_split_step(v@, from as int, to as int, k1 as int, 5);
            lemma_split_step(v@, k1 + 1, to as int, k2 as int, 4);
        }
        return None;
    }
    let k4 = find_char(v, '\t', k3 + 1, to);
    proof {
        lemma_split_step(v@, from as int, to as int, k1 as int, 5);
        lemma_split_step(v@, k1 + 1, to as int, k2 as int, 4);
        lemma_split_step(v@, k2 + 1, to as int, k3 as int, 3);
    }
    if k4 == to {
        return None;
    }
    proof {
        lemma_split_step(v@, k3 + 1, to as int, k4 as int, 2);
        let f = split_tabs(line, 5);
        assert(f =~= seq![
            v@.subrange(from as int, k1 as int),
            v@.subrange(k1 + 1, k2 as int),
            v@.subrange(k2 + 1, k3 as int),
            v@.subrange(k3 + 1, k4 as int),
            v@.subrange(k4 + 1, to as int),
        ]);
    }
    if k1 == from || k2 == k1 + 1 || k3 == k2 + 1 || k4 == k3 + 1 || to == k4 + 1 {
        return None;
    }
    Some(
        Container {
            backend,
            id: string_from(v, from, k1),
            image: string_from(v, k1 + 1, k2),
            name: string_from(v, k2 + 1, k3),
            state: string_from(v, k3 + 1, k4),
            status: string_from(v, k4 + 1, to),
        },
    )
}

// ---------------------------------------------------------------------------
// ParseError
// ---------------------------------------------------------------------------
/// A listing line that is neither blank nor a row of five non-empty fields.
#[derive(Debug, Clone, PartialEq, Eq, Structural)]
pub struct ParseError {
    line: usize,
}

impl ParseError {
    /// The number of the offending line, counting from 1.
    pub fn line(&self) -> (r: usize)
        ensures
            r == self.line_number(),
    {
        self.line
    }

    pub closed spec fn line_number(self) -> nat {
        self.line as nat
    }

    /// The error as text: `invalid container output on line N`.
    pub fn to_string(&self) -> (r: String)
        ensures
            r@ == "invalid container output on line "@ + decimal_text(self.line_number()),
    {
        let mut r = "invalid container output on line ".to_owned();
        push_decimal(&mut r, self.line);
        r
    }
}

// ---------------------------------------------------------------------------
// The listing
// ---------------------------------------------------------------------------
proof fn lemma_line_step(v: Seq<char>, pos: int, j: int, end: int, next: int)
    requires
        0 <= pos < v.len(),
        pos <= j <= v.len(),
        j < v.len() ==> v[j] == '\n',
        first_index(v.subrange(pos, v.len() as int), '\n') == j - pos,
        end == (if j < v.len() && j > pos && v[j - 1] == '\r' { j - 1 } else { j }),
        next == (if j < v.len() { j + 1 } else { j }),
    ensures
        pos <= end <= j,
        pos < next <= v.len(),
        text_lines(v.skip(pos)) == seq![v.subrange(pos, end)] + text_lines(v.skip(next)),
{
    let rest = v.skip(pos);
    assert(rest =~= v.subrange(pos, v.len() as int));
    let line = v.subrange(pos, end);
    let k = j - pos;
    if j < v.len() {
        assert(rest.take(k) =~= v.subrange(pos, j));
        assert(rest.skip(k + 1) =~= v.skip(next));
        if end < j {
            assert(v.subrange(pos, j).drop_last() =~= line);
        }
    } else {
        assert(line =~= rest);
        assert(v.skip(next) =~= Seq::<char>::empty());
        assert(text_lines(rest) =~= seq![line] + text_lines(v.skip(next)));
    }
}

proof fn lemma_parse_cons(backend: Backend, line: Seq<char>, rest: Seq<Seq<char>>, n: nat)
    ensures
        parse_lines(backend, seq![line] + rest, n) == (if is_blank(line) {
            parse_lines(backend, rest, n + 1)
        } else {
            match parse_row(backend, line) {
                None => Err(n),
                Some(c) => match parse_lines(backend, rest, n + 1) {
                    Ok(t) => Ok(seq![c] + t),
                    Err(e) => Err(e),
                },
            }
        }),
{
    let ls = seq![line] + rest;
    assert(ls[0] == line);
    assert(ls.drop_first() =~= rest);
}

proof fn lemma_prepend_row(done: Seq<ContainerView>, c: ContainerView, r: Result<Seq<ContainerView>, nat>)
    ensures
        prepend(done + seq![c], r) == prepend(
            done,
            match r {
                Ok(t) => Ok(seq![c] + t),
                Err(e) => Err(e),
            },
        ),
{
    match r {
        Ok(t) => {
            assert(done + seq![c] + t =~= done + (seq![c] + t));
        },
        Err(_) => {},
    }
}

/// Parses the output of `ps --format` for `backend`: every line that is not
/// blank must be a row, and the first one that is not gives the error.
pub fn parse_container_list(backend: Backend, output: &str) -> (r: Result<Vec<Container>, ParseError>)
    ensures
        match r {
            Ok(v) => parse_listing(backend, output@) == Ok::<Seq<ContainerView>, nat>(container_views(v@)),
            Err(e) => parse_listing(backend, output@) == Err::<Seq<ContainerView>, nat>(e.line_number()),
        },
{
    let v = chars_of(output);
    let mut out: Vec<Container> = Vec::new();
    let mut pos: usize = 0;
    let mut index: usize = 0;
    assert(v@.skip(0) =~= v@);
    assert(container_views(out@) =~= Seq::<ContainerView>::empty());
    while pos < v.len()
        invariant
            v@ == output@,
            pos <= v@.len(),
            index <= pos,
            parse_listing(backend, output@) == prepend(
                container_views(out@),
                parse_lines(backend, text_lines(v@.skip(pos as int)), (index + 1) as nat),
            ),
        decreases v@.len() - pos,
    {
        let j = find_char(&v, '\n', pos, v.len());
        let end = if j < v.len() && j > pos && v[j - 1] == '\r' {
            j - 1
        } else {
            j
        };
        let next = if j < v.len() {
            j + 1
        } else {
            j
        };
        let ghost line = v@.subrange(pos as int, end as int);
        let ghost later = text_lines(v@.skip(next as int));
        proof {
            lemma_line_step(v@, pos as int, j as int, end as int, next as int);
            lemma_parse_cons(backend, line, later, (index + 1) as nat);
        }
        if !blank(&v, pos, end) {
            match parse_row_at(backend, &v, pos, end) {
                None => {
                    return Err(ParseError { line: index + 1 });
                },
                Some(c) => {
                    proof {
                        assert(container_views(out@.push(c)) =~= container_views(out@) + seq![c@]);
                        lemma_prepend_row(
                            container_views(out@),
                            c@,
                            parse_lines(backend, later, (index + 2) as nat),
                        );
                    }
                    out.push(c);
                },
            }
        }
        pos = next;
        index = index + 1;
    }
    proof {
        assert(text_lines(v@.skip(pos as int)) =~= Seq::<Seq<char>>::empty());
        assert(container_views(out@) + Seq::<ContainerView>::empty() =~= container_views(out@));
    }
    Ok(out)
}


// ---------------------------------------------------------------------------
// Laws
// ---------------------------------------------------------------------------
/// One listing row as the engines print it: the five fields joined by tabs.
pub open spec fn render_row(c: ContainerView) -> Seq<char> {
    c.id + seq!['\t'] + c.image + seq!['\t'] + c.name + seq!['\t'] + c.state + seq!['\t']
        + c.status
}

/// A whole listing: every row followed by a newline.
pub open spec fn render_listing(cs: Seq<ContainerView>) -> Seq<char>
    decreases cs.len(),
{
    if cs.len() == 0 {
        Seq::empty()
    } else {
        render_row(cs[0]) + seq!['\n'] + render_listing(cs.drop_first())
    }
}

/// A container that a listing row can carry unchanged: every field is
/// non-empty, the first four hold no tab, none holds a newline, the status
/// does not end with a carriage return, and the row is not all whitespace.
pub open spec fn printable_row(c: ContainerView) -> bool {
    &&& c.id.len() > 0 && c.image.len() > 0 && c.name.len() > 0 && c.state.len() > 0
        && c.status.len() > 0
    &&& !c.id.contains('\t') && !c.image.contains('\t') && !c.name.contains('\t')
        && !c.state.contains('\t')
    &&& !c.id.contains('\n') && !c.image.contains('\n') && !c.name.contains('\n')
        && !c.state.contains('\n') && !c.status.contains('\n')
    &&& c.status.last() != '\r'
    &&& !is_blank(render_row(c))
}

proof fn lemma_first_index_concat(a: Seq<char>, c: char, b: Seq<char>)
    requires
        !a.contains(c),
    ensures
        first_index(a + seq![c] + b, c) == a.len(),
{
    let s = a + seq![c] + b;
    assert forall|i: int| 0 <= i < a.len() implies s[i] != c by {
        assert(s[i] == a[i]);
        if a[i] == c {
            assert(a.contains(c));
        }
    }
    lemma_first_index(s, c, a.len() as int);
}

proof fn lemma_split_field(a: Seq<char>, b: Seq<char>, n: nat)
    requires
        !a.contains('\t'),
        n >= 2,
    ensures
        split_tabs(a + seq!['\t'] + b, n) == seq![a] + split_tabs(b, (n - 1) as nat),
{
    let s = a + seq!['\t'] + b;
    lemma_first_index_concat(a, '\t', b);
    assert(s.take(a.len() as int) =~= a);
    assert(s.skip(a.len() as int + 1) =~= b);
}

proof fn lemma_parse_rendered_row(c: ContainerView)
    requires
        printable_row(c),
    ensures
        parse_row(c.backend, render_row(c)) == Some(c),
{
    let r = render_row(c);
    let t1 = c.image + seq!['\t'] + c.name + seq!['\t'] + c.state + seq!['\t'] + c.status;
    let t2 = c.name + seq!['\t'] + c.state + seq!['\t'] + c.status;
    let t3 = c.state + seq!['\t'] + c.status;
    assert(r =~= c.id + seq!['\t'] + t1);
    assert(t1 =~= c.image + seq!['\t'] + t2);
    assert(t2 =~= c.name + seq!['\t'] + t3);
    lemma_split_field(c.id, t1, 5);
    lemma_split_field(c.image, t2, 4);
    lemma_split_field(c.name, t3, 3);
    lemma_split_field(c.state, c.status, 2);
    let f = split_tabs(r, 5);
    assert(f =~= seq![c.id, c.image, c.name, c.state, c.status]);
}

/// Parsing a listing that was printed from containers gives those containers
/// back, in order.
pub proof fn law_parse_rendered_listing(backend: Backend, cs: Seq<ContainerView>)
    requires
        forall|i: int| 0 <= i < cs.len() ==> printable_row(#[trigger] cs[i]),
        forall|i: int| 0 <= i < cs.len() ==> (#[trigger] cs[i]).backend == backend,
    ensures
        parse_listing(backend, render_listing(cs)) == Ok::<Seq<ContainerView>, nat>(cs),
{
    lemma_parse_rendered_from(backend, cs, 1);
}

proof fn lemma_parse_rendered_from(backend: Backend, cs: Seq<ContainerView>, n: nat)
    requires
        forall|i: int| 0 <= i < cs.len() ==> printable_row(#[trigger] cs[i]),
        forall|i: int| 0 <= i < cs.len() ==> (#[trigger] cs[i]).backend == backend,
    ensures
        parse_lines(backend, text_lines(render_listing(cs)), n) == Ok::<Seq<ContainerView>, nat>(
            cs,
        ),
    decreases cs.len(),
{
    if cs.len() == 0 {
        assert(render_listing(cs) =~= Seq::<char>::empty());
        assert(cs =~= Seq::<ContainerView>::empty());
    } else {
        let c = cs[0];
        assert(printable_row(c) && c.backend == backend);
        let row = render_row(c);
        let rest = render_listing(cs.drop_first());
        let s = render_listing(cs);
        assert(s == row + seq!['\n'] + rest);
        assert(!row.contains('\n')) by {
            if row.contains('\n') {
                let i = choose|i: int| 0 <= i < row.len() && row[i] == '\n';
                let a = c.id.len() as int;
                let b = a + 1 + c.image.len();
                let d = b + 1 + c.name.len();
                let e = d + 1 + c.state.len();
                if i < a {
                    assert(c.id[i] == '\n');
                } else if i == a {
                } else if i < b {
                    assert(c.image[i - a - 1] == '\n');
                } else if i == b {
                } else if i < d {
                    assert(c.name[i - b - 1] == '\n');
                } else if i == d {
                } else if i < e {
                    assert(c.state[i - d - 1] == '\n');
                } else if i == e {
                } else {
                    assert(c.status[i - e - 1] == '\n');
                }
            }
        }
        lemma_first_index_concat(row, '\n', rest);
        assert(s.take(row.len() as int) =~= row);
        assert(s.skip(row.len() as int + 1) =~= rest);
        assert(row.last() == c.status.last());
        assert(strip_cr(row) == row);
        assert(text_lines(s) == seq![row] + text_lines(rest));
        lemma_parse_cons(backend, row, text_lines(rest), n);
        lemma_parse_rendered_row(c);
        lemma_parse_rendered_from(backend, cs.drop_first(), n + 1);
        assert(seq![c] + cs.drop_first() =~= cs);
    }
}

/// A reported line number points at a line of the listing that is neither
/// blank nor a row, and every line before it is one or the other.
pub proof fn law_error_line(backend: Backend, output: Seq<char>, n: nat)
    requires
        parse_listing(backend, output) == Err::<Seq<ContainerView>, nat>(n),
    ensures
        1 <= n <= text_lines(output).len(),
        !is_blank(text_lines(output)[n - 1]),
        parse_row(backend, text_lines(output)[n - 1]) is None,
        forall|i: int|
            0 <= i < n - 1 ==> is_blank(#[trigger] text_lines(output)[i]) || parse_row(
                backend,
                text_lines(output)[i],
            ) is Some,
{
    lemma_error_line_from(backend, text_lines(output), 1, n);
}

proof fn lemma_error_line_from(backend: Backend, lines: Seq<Seq<char>>, first: nat, n: nat)
    requires
        parse_lines(backend, lines, first) == Err::<Seq<ContainerView>, nat>(n),
    ensures
        first <= n < first + lines.len(),
        !is_blank(lines[n - first]),
        parse_row(backend, lines[n - first]) is None,
        forall|i: int|
            0 <= i < n - first ==> is_blank(#[trigger] lines[i]) || parse_row(backend, lines[i]) is Some,
    decreases lines.len(),
{
    if lines.len() > 0 {
        if is_blank(lines[0]) || parse_row(backend, lines[0]) is Some {
            lemma_error_line_from(backend, lines.drop_first(), first + 1, n);
            assert forall|i: int| 0 <= i < n - first implies is_blank(#[trigger] lines[i])
                || parse_row(backend, lines[i]) is Some by {
                if i > 0 {
                    assert(lines[i] == lines.drop_first()[i - 1]);
                }
            }
        }
    }
}

} // verus!
