//! The persistence format: one textual document per graph, holding the
//! `vertices` mapping and the `directed` flag.  The encoder is specified
//! exactly, character by character; the decoder accepts the canonical form
//! that the encoder produces and reports malformed content as a parse error.

use vstd::prelude::*;
use crate::graph::{AdjView, Edge, EdgeView, Graph, GraphView, chars_equal, distinct_ids, row_view, str_eq, string_to_chars};

verus! {

/// Errors at the persistence boundary.  Reading and parsing stay
/// distinguishable, as do writing and encoding.
#[derive(Clone, Copy, Debug, PartialEq, Eq, Structural)]
pub enum PersistError {
    /// Underlying storage could not be read.
    ReadError,
    /// Underlying storage could not be written.
    WriteError,
    /// Content was retrieved but is not a well-formed graph document.
    ParseError,
    /// A graph could not be encoded.
    EncodeError,
}

/// The decimal digit `d` as a character.
pub open spec fn digit_char(d: int) -> char {
    if d == 0 {
        '0'
    } else if d == 1 {
        '1'
    } else if d == 2 {
        '2'
    } else if d == 3 {
        '3'
    } else if d == 4 {
        '4'
    } else if d == 5 {
        '5'
    } else if d == 6 {
        '6'
    } else if d == 7 {
        '7'
    } else if d == 8 {
        '8'
    } else {
        '9'
    }
}

/// The canonical decimal form of `n`: most significant digit first, no
/// leading zero.
pub open spec fn dec_digits(n: int) -> Seq<char>
    decreases n,
{
    if n < 10 {
        seq![digit_char(n)]
    } else {
        dec_digits(n / 10).push(digit_char(n % 10))
    }
}

/// One character of an encoded string: a quote or backslash is preceded by a
/// backslash, everything else stands for itself.
pub open spec fn esc_char(c: char) -> Seq<char> {
    if c == '"' || c == '\\' {
        seq!['\\', c]
    } else {
        seq![c]
    }
}

/// The escaped form of a whole string.
pub open spec fn esc_str(s: Seq<char>) -> Seq<char>
    decreases s.len(),
{
    if s.len() == 0 {
        Seq::empty()
    } else {
        esc_str(s.drop_last()) + esc_char(s.last())
    }
}

/// One encoded edge object, with its three fields in fixed order.
pub open spec fn enc_edge(e: EdgeView) -> Seq<char> {
    seq!['{', '"', 't', 'o', '"', ':', '"'] + esc_str(e.to) + seq![
        '"',
        ',',
        '"',
        'r',
        'e',
        'l',
        'a',
        't',
        'i',
        'o',
        'n',
        's',
        'h',
        'i',
        'p',
        '"',
        ':',
        '"',
    ] + esc_str(e.relationship) + seq!['"', ',', '"', 'w', 'e', 'i', 'g', 'h', 't', '"', ':']
        + dec_digits(e.weight as int) + seq!['}']
}

/// A comma-separated sequence of encoded edges.
pub open spec fn enc_edges(es: Seq<EdgeView>) -> Seq<char>
    decreases es.len(),
{
    if es.len() == 0 {
        Seq::empty()
    } else if es.len() == 1 {
        enc_edge(es[0])
    } else {
        enc_edges(es.drop_last()) + seq![','] + enc_edge(es.last())
    }
}

/// One encoded adjacency row: the quoted vertex identifier and its edges.
pub open spec fn enc_row(r: (Seq<char>, Seq<EdgeView>)) -> Seq<char> {
    seq!['"'] + esc_str(r.0) + seq!['"', ':', '['] + enc_edges(r.1) + seq![']']
}

/// A comma-separated sequence of encoded rows.
pub open spec fn enc_rows(adj: AdjView) -> Seq<char>
    decreases adj.len(),
{
    if adj.len() == 0 {
        Seq::empty()
    } else if adj.len() == 1 {
        enc_row(adj[0])
    } else {
        enc_rows(adj.drop_last()) + seq![','] + enc_row(adj.last())
    }
}

/// The whole encoded document.
pub open spec fn enc_doc(gv: GraphView) -> Seq<char> {
    seq!['{', '"', 'v', 'e', 'r', 't', 'i', 'c', 'e', 's', '"', ':', '{'] + enc_rows(gv.adj)
        + seq!['}', ',', '"', 'd', 'i', 'r', 'e', 'c', 't', 'e', 'd', '"', ':'] + (if gv.directed {
        seq!['t', 'r', 'u', 'e']
    } else {
        seq!['f', 'a', 'l', 's', 'e']
    }) + seq!['}']
}

/// Relies on `String`'s `FromIterator<char>`: collecting characters yields
/// the string of exactly those characters, in order.
#[verifier::external_body]
fn chars_to_string(v: &Vec<char>) -> (r: String)
    ensures
        r@ == v@,
{
    v.iter().collect()
}

fn digit_of(d: u64) -> (c: char)
    requires
        d < 10,
    ensures
        c == digit_char(d as int),
{
    if d == 0 {
        '0'
    } else if d == 1 {
        '1'
    } else if d == 2 {
        '2'
    } else if d == 3 {
        '3'
    } else if d == 4 {
        '4'
    } else if d == 5 {
        '5'
    } else if d == 6 {
        '6'
    } else if d == 7 {
        '7'
    } else if d == 8 {
        '8'
    } else {
        '9'
    }
}

fn push_digits(out: &mut Vec<char>, n: u64)
    ensures
        final(out)@ == old(out)@ + dec_digits(n as int),
    decreases n,
{
    if n < 10 {
        out.push(digit_of(n));
        proof {
            assert(final(out)@ =~= old(out)@ + dec_digits(n as int));
        }
    } else {
        push_digits(out, n / 10);
        out.push(digit_of(n % 10));
        proof {
            assert(final(out)@ =~= old(out)@ + dec_digits(n as int));
        }
    }
}

fn push_escaped(out: &mut Vec<char>, s: &str)
    ensures
        final(out)@ == old(out)@ + esc_str(s@),
{
    let cs = string_to_chars(s);
    let n = cs.len();
    let mut i: usize = 0;
    while i < n
        invariant
            n == cs@.len(),
            cs@ == s@,
            i <= n,
            out@ == old(out)@ + esc_str(s@.subrange(0, i as int)),
        decreases n - i,
    {
        let ghost pre = out@;
        let c = cs[i];
        if c == '"' || c == '\\' {
            out.push('\\');
            out.push(c);
        } else {
            out.push(c);
        }
        proof {
            let cur = s@.subrange(0, i as int + 1);
            assert(cur.drop_last() =~= s@.subrange(0, i as int));
            assert(cur.last() == s@[i as int]);
            assert(out@ =~= pre + esc_char(s@[i as int]));
            assert(out@ =~= old(out)@ + esc_str(cur));
        }
        i = i + 1;
    }
    proof {
        assert(s@.subrange(0, n as int) =~= s@);
    }
}

fn push_edge_chars(out: &mut Vec<char>, e: &Edge)
    ensures
        final(out)@ == old(out)@ + enc_edge(e@),
{
    out.push('{');
    out.push('"');
    out.push('t');
    out.push('o');
    out.push('"');
    out.push(':');
    out.push('"');
    push_escaped(out, e.to.as_str());
    out.push('"');
    out.push(',');
    out.push('"');
    out.push('r');
    out.push('e');
    out.push('l');
    out.push('a');
    out.push('t');
    out.push('i');
    out.push('o');
    out.push('n');
    out.push('s');
    out.push('h');
    out.push('i');
    out.push('p');
    out.push('"');
    out.push(':');
    out.push('"');
    push_escaped(out, e.relationship.as_str());
    out.push('"');
    out.push(',');
    out.push('"');
    out.push('w');
    out.push('e');
    out.push('i');
    out.push('g');
    out.push('h');
    out.push('t');
    out.push('"');
    out.push(':');
    push_digits(out, e.weight);
    out.push('}');
    proof {
        assert(final(out)@ =~= old(out)@ + enc_edge(e@));
    }
}

/// Serializes the full structure (vertices mapping and directed flag) to its
/// canonical textual form; the result is exactly `enc_doc` of the graph.
pub fn to_json(g: &Graph) -> (r: String)
    ensures
        r@ == enc_doc(g@),
{
    let mut out: Vec<char> = Vec::new();
    out.push('{');
    out.push('"');
    out.push('v');
    out.push('e');
    out.push('r');
    out.push('t');
    out.push('i');
    out.push('c');
    out.push('e');
    out.push('s');
    out.push('"');
    out.push(':');
    out.push('{');
    let ghost head = out@;
    proof {
        assert(head =~= seq!['{', '"', 'v', 'e', 'r', 't', 'i', 'c', 'e', 's', '"', ':', '{']);
    }
    let nv = g.vertices.len();
    let mut i: usize = 0;
    while i < nv
        invariant
            nv == g.vertices@.len(),
            i <= nv,
            out@ == head + enc_rows(g@.adj.subrange(0, i as int)),
            head == seq!['{', '"', 'v', 'e', 'r', 't', 'i', 'c', 'e', 's', '"', ':', '{'],
        decreases nv - i,
    {
        let ghost pre = out@;
        if i > 0 {
            out.push(',');
        }
        let ghost mid = out@;
        out.push('"');
        push_escaped(&mut out, g.vertices[i].0.as_str());
        out.push('"');
        out.push(':');
        out.push('[');
        let ghost rowhead = out@;
        let ne = g.vertices[i].1.len();
        let mut k: usize = 0;
        while k < ne
            invariant
                i < g.vertices@.len(),
                ne == g.vertices@[i as int].1@.len(),
                k <= ne,
                out@ == rowhead + enc_edges(
                    g@.adj[i as int].1.subrange(0, k as int),
                ),
            decreases ne - k,
        {
            let ghost epre = out@;
            if k > 0 {
                out.push(',');
            }
            push_edge_chars(&mut out, &g.vertices[i].1[k]);
            proof {
                let es = g@.adj[i as int].1;
                let cur = es.subrange(0, k as int + 1);
                assert(cur.drop_last() =~= es.subrange(0, k as int));
                assert(cur.last() == es[k as int]);
                assert(g@.adj[i as int] == row_view(g.vertices@[i as int]));
                assert(es[k as int] == g.vertices@[i as int].1@[k as int]@);
                if k == 0 {
                    assert(es.subrange(0, 0) =~= Seq::<EdgeView>::empty());
                    assert(epre =~= rowhead);
                    assert(out@ =~= rowhead + enc_edges(cur));
                } else {
                    assert(out@ =~= rowhead + enc_edges(cur));
                }
            }
            k = k + 1;
        }
        out.push(']');
        proof {
            let adj = g@.adj;
            let es = adj[i as int].1;
            assert(es.subrange(0, es.len() as int) =~= es);
            assert(out@ =~= mid + enc_row(adj[i as int])) by {
                assert(adj[i as int].0 == g.vertices@[i as int].0@);
            }
            let cur = adj.subrange(0, i as int + 1);
            assert(cur.drop_last() =~= adj.subrange(0, i as int));
            assert(cur.last() == adj[i as int]);
            if i == 0 {
                assert(adj.subrange(0, 0) =~= Seq::<(Seq<char>, Seq<EdgeView>)>::empty());
                assert(pre =~= head);
                assert(out@ =~= head + enc_rows(cur));
            } else {
                assert(out@ =~= head + enc_rows(cur));
            }
        }
        i = i + 1;
    }
    proof {
        assert(g@.adj.subrange(0, nv as int) =~= g@.adj);
    }
    out.push('}');
    out.push(',');
    out.push('"');
    out.push('d');
    out.push('i');
    out.push('r');
    out.push('e');
    out.push('c');
    out.push('t');
    out.push('e');
    out.push('d');
    out.push('"');
    out.push(':');
    if g.directed {
        out.push('t');
        out.push('r');
        out.push('u');
        out.push('e');
    } else {
        out.push('f');
        out.push('a');
        out.push('l');
        out.push('s');
        out.push('e');
    }
    out.push('}');
    proof {
        assert(out@ =~= enc_doc(g@));
    }
    chars_to_string(&out)
}

fn eat(cs: &Vec<char>, i: usize, c: char) -> (r: Option<usize>)
    ensures
        r matches Some(j) ==> i < cs@.len() && j == i + 1,
{
    if i < cs.len() && cs[i] == c {
        Some(i + 1)
    } else {
        None
    }
}

/// The body of a quoted string, after its opening quote: characters up to
/// the next unescaped quote, undoing the escaping of quotes and backslashes.
fn parse_str_body(cs: &Vec<char>, i0: usize) -> (r: Option<(String, usize)>)
    requires
        i0 <= cs@.len(),
    ensures
        r matches Some(p) ==> i0 < p.1 <= cs@.len(),
{
    let n = cs.len();
    let mut out: Vec<char> = Vec::new();
    let mut i = i0;
    while i < n
        invariant
            n == cs@.len(),
            i0 <= i <= n,
        decreases n - i,
    {
        let c = cs[i];
        if c == '"' {
            return Some((chars_to_string(&out), i + 1));
        } else if c == '\\' {
            if i + 1 < n {
                let c2 = cs[i + 1];
                if c2 == '"' || c2 == '\\' {
                    out.push(c2);
                    i = i + 2;
                } else {
                    return None;
                }
            } else {
                return None;
            }
        } else {
            out.push(c);
            i = i + 1;
        }
    }
    None
}

/// A nonempty run of decimal digits as a `u64`; a value beyond `u64::MAX`
/// is malformed.
fn parse_number(cs: &Vec<char>, i0: usize) -> (r: Option<(u64, usize)>)
    requires
        i0 <= cs@.len(),
    ensures
        r matches Some(p) ==> i0 < p.1 <= cs@.len(),
{
    let n = cs.len();
    let mut i = i0;
    let mut val: u64 = 0;
    let mut any = false;
    while i < n
        invariant
            n == cs@.len(),
            i0 <= i <= n,
            any ==> i > i0,
        decreases n - i,
    {
        let cu = cs[i] as u32;
        if cu >= 48 && cu <= 57 {
            let d = (cu - 48) as u64;
            if val <= (u64::MAX - d) / 10 {
                proof {
                    assert(val * 10 <= ((u64::MAX - d) / 10) * 10) by (nonlinear_arith)
                        requires val <= (u64::MAX - d) / 10
                    ;
                    assert(((u64::MAX - d) / 10) * 10 <= u64::MAX - d);
                }
                val = val * 10 + d;
                any = true;
                i = i + 1;
            } else {
                return None;
            }
        } else {
            break;
        }
    }
    if any {
        Some((val, i))
    } else {
        None
    }
}

/// One edge object, with its three fields in the canonical order.
fn parse_edge(cs: &Vec<char>, i0: usize) -> (r: Option<(Edge, usize)>)
    ensures
        r matches Some(p) ==> i0 < p.1 <= cs@.len(),
{
    let mut i = eat(cs, i0, '{')?;
    i = eat(cs, i, '"')?;
    i = eat(cs, i, 't')?;
    i = eat(cs, i, 'o')?;
    i = eat(cs, i, '"')?;
    i = eat(cs, i, ':')?;
    i = eat(cs, i, '"')?;
    let (to, j) = parse_str_body(cs, i)?;
    i = j;
    i = eat(cs, i, ',')?;
    i = eat(cs, i, '"')?;
    i = eat(cs, i, 'r')?;
    i = eat(cs, i, 'e')?;
    i = eat(cs, i, 'l')?;
    i = eat(cs, i, 'a')?;
    i = eat(cs, i, 't')?;
    i = eat(cs, i, 'i')?;
    i = eat(cs, i, 'o')?;
    i = eat(cs, i, 'n')?;
    i = eat(cs, i, 's')?;
    i = eat(cs, i, 'h')?;
    i = eat(cs, i, 'i')?;
    i = eat(cs, i, 'p')?;
    i = eat(cs, i, '"')?;
    i = eat(cs, i, ':')?;
    i = eat(cs, i, '"')?;
    let (relationship, j2) = parse_str_body(cs, i)?;
    i = j2;
    i = eat(cs, i, ',')?;
    i = eat(cs, i, '"')?;
    i = eat(cs, i, 'w')?;
    i = eat(cs, i, 'e')?;
    i = eat(cs, i, 'i')?;
    i = eat(cs, i, 'g')?;
    i = eat(cs, i, 'h')?;
    i = eat(cs, i, 't')?;
    i = eat(cs, i, '"')?;
    i = eat(cs, i, ':')?;
    let (weight, j3) = parse_number(cs, i)?;
    i = j3;
    i = eat(cs, i, '}')?;
    Some((Edge { to, relationship, weight }, i))
}

/// A bracketed, comma-separated list of edge objects.
fn parse_edges(cs: &Vec<char>, i0: usize) -> (r: Option<(Vec<Edge>, usize)>)
    ensures
        r matches Some(p) ==> i0 < p.1 <= cs@.len(),
{
    let mut i = eat(cs, i0, '[')?;
    let n = cs.len();
    let mut out: Vec<Edge> = Vec::new();
    if i < n && cs[i] == ']' {
        return Some((out, i + 1));
    }
    loop
        invariant
            n == cs@.len(),
            i0 < i <= n,
        decreases n - i,
    {
        let (e, j) = parse_edge(cs, i)?;
        out.push(e);
        i = j;
        if i < n && cs[i] == ',' {
            i = i + 1;
        } else {
            let j2 = eat(cs, i, ']')?;
            return Some((out, j2));
        }
    }
}

/// Whether an adjacency row with identifier `id` is already present.
fn has_key(v: &Vec<(String, Vec<Edge>)>, id: &str) -> (r: bool)
    ensures
        r == exists|j: int| 0 <= j < v@.len() && (#[trigger] v@[j]).0@ == id@,
{
    let n = v.len();
    let mut k: usize = 0;
    while k < n
        invariant
            n == v@.len(),
            k <= n,
            forall|j: int| 0 <= j < k ==> (#[trigger] v@[j]).0@ != id@,
        decreases n - k,
    {
        if str_eq(v[k].0.as_str(), id) {
            return true;
        }
        k = k + 1;
    }
    false
}

/// The whole document: the vertices object (rejecting a repeated key, so the
/// result is well-formed) followed by the directed flag, with nothing after.
fn parse_doc(cs: &Vec<char>) -> (r: Option<Graph>)
    ensures
        r matches Some(g) ==> g.wf(),
{
    let n = cs.len();
    let mut i = eat(cs, 0, '{')?;
    i = eat(cs, i, '"')?;
    i = eat(cs, i, 'v')?;
    i = eat(cs, i, 'e')?;
    i = eat(cs, i, 'r')?;
    i = eat(cs, i, 't')?;
    i = eat(cs, i, 'i')?;
    i = eat(cs, i, 'c')?;
    i = eat(cs, i, 'e')?;
    i = eat(cs, i, 's')?;
    i = eat(cs, i, '"')?;
    i = eat(cs, i, ':')?;
    i = eat(cs, i, '{')?;
    let mut vertices: Vec<(String, Vec<Edge>)> = Vec::new();
    if i < n && cs[i] == '}' {
        i = i + 1;
    } else {
        loop
            invariant
                n == cs@.len(),
                0 < i <= n,
                forall|a: int, b: int|
                    0 <= a < b < vertices@.len() ==> (#[trigger] vertices@[a]).0@ != (
                    #[trigger] vertices@[b]).0@,
            decreases n - i,
        {
            i = eat(cs, i, '"')?;
            let (id, j) = parse_str_body(cs, i)?;
            i = j;
            if has_key(&vertices, id.as_str()) {
                return None;
            }
            i = eat(cs, i, ':')?;
            let (es, j2) = parse_edges(cs, i)?;
            i = j2;
            vertices.push((id, es));
            if i < n && cs[i] == ',' {
                i = i + 1;
            } else {
                i = eat(cs, i, '}')?;
                break;
            }
        }
    }
    i = eat(cs, i, ',')?;
    i = eat(cs, i, '"')?;
    i = eat(cs, i, 'd')?;
    i = eat(cs, i, 'i')?;
    i = eat(cs, i, 'r')?;
    i = eat(cs, i, 'e')?;
    i = eat(cs, i, 'c')?;
    i = eat(cs, i, 't')?;
    i = eat(cs, i, 'e')?;
    i = eat(cs, i, 'd')?;
    i = eat(cs, i, '"')?;
    i = eat(cs, i, ':')?;
    let directed: bool;
    if i < n && cs[i] == 't' {
        i = eat(cs, i, 't')?;
        i = eat(cs, i, 'r')?;
        i = eat(cs, i, 'u')?;
        i = eat(cs, i, 'e')?;
        directed = true;
    } else {
        i = eat(cs, i, 'f')?;
        i = eat(cs, i, 'a')?;
        i = eat(cs, i, 'l')?;
        i = eat(cs, i, 's')?;
        i = eat(cs, i, 'e')?;
        directed = false;
    }
    i = eat(cs, i, '}')?;
    if i != cs.len() {
        return None;
    }
    let g = Graph { vertices, directed };
    proof {
        assert(distinct_ids(g@.adj)) by {
            assert forall|a: int, b: int| 0 <= a < b < g@.adj.len() implies g@.adj[a].0 != g@.adj[
                b
            ].0 by {
                assert(g@.adj[a].0 == g.vertices@[a].0@);
                assert(g@.adj[b].0 == g.vertices@[b].0@);
            }
        }
    }
    Some(g)
}

/// Reads a graph back from its textual form.  Canonical documents as
/// produced by `to_json` are accepted; malformed content, a number beyond
/// `u64`, a repeated vertex key, or trailing text yields `ParseError`.
/// Every success is exact: the returned graph is well-formed and encodes
/// back to precisely the document that was read, so no input is ever
/// accepted as a silently partial or deviating graph.
pub fn from_json(s: &str) -> (r: Result<Graph, PersistError>)
    ensures
        r matches Ok(g) ==> g.wf() && s@ == enc_doc(g@),
        r matches Err(e) ==> e == PersistError::ParseError,
{
    let cs = string_to_chars(s);
    match parse_doc(&cs) {
        Some(g) => {
            let enc = to_json(&g);
            let ec = string_to_chars(enc.as_str());
            if chars_equal(&ec, &cs) {
                Ok(g)
            } else {
                Err(PersistError::ParseError)
            }
        },
        None => Err(PersistError::ParseError),
    }
}

} // verus!
