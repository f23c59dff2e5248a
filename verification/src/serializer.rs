//! Writing instances and tour solutions in their text formats, and the
//! identifier-style conversions those formats use. Case conversions are
//! defined over the ASCII letters; other characters pass through
//! unchanged.
use vstd::prelude::*;

use crate::instance::{Instance, Node, TspKind};
use crate::num::{dec_rep, dec_rep_int, push_i64, push_u64};
use crate::reindex::clone_string;
use crate::solvers::SolvingOutput;
use crate::tsp_util::{spec_score, tours_ok};
use crate::VrpError;

verus! {

/// The lower-case form of an ASCII upper-case letter; other characters
/// are their own lower-case form.
pub open spec fn spec_lower_char(c: char) -> char {
    if c == 'A' {
        'a'
    } else if c == 'B' {
        'b'
    } else if c == 'C' {
        'c'
    } else if c == 'D' {
        'd'
    } else if c == 'E' {
        'e'
    } else if c == 'F' {
        'f'
    } else if c == 'G' {
        'g'
    } else if c == 'H' {
        'h'
    } else if c == 'I' {
        'i'
    } else if c == 'J' {
        'j'
    } else if c == 'K' {
        'k'
    } else if c == 'L' {
        'l'
    } else if c == 'M' {
        'm'
    } else if c == 'N' {
        'n'
    } else if c == 'O' {
        'o'
    } else if c == 'P' {
        'p'
    } else if c == 'Q' {
        'q'
    } else if c == 'R' {
        'r'
    } else if c == 'S' {
        's'
    } else if c == 'T' {
        't'
    } else if c == 'U' {
        'u'
    } else if c == 'V' {
        'v'
    } else if c == 'W' {
        'w'
    } else if c == 'X' {
        'x'
    } else if c == 'Y' {
        'y'
    } else if c == 'Z' {
        'z'
    } else {
        c
    }
}

/// The upper-case form of an ASCII lower-case letter; other characters
/// are their own upper-case form.
pub open spec fn spec_upper_char(c: char) -> char {
    if c == 'a' {
        'A'
    } else if c == 'b' {
        'B'
    } else if c == 'c' {
        'C'
    } else if c == 'd' {
        'D'
    } else if c == 'e' {
        'E'
    } else if c == 'f' {
        'F'
    } else if c == 'g' {
        'G'
    } else if c == 'h' {
        'H'
    } else if c == 'i' {
        'I'
    } else if c == 'j' {
        'J'
    } else if c == 'k' {
        'K'
    } else if c == 'l' {
        'L'
    } else if c == 'm' {
        'M'
    } else if c == 'n' {
        'N'
    } else if c == 'o' {
        'O'
    } else if c == 'p' {
        'P'
    } else if c == 'q' {
        'Q'
    } else if c == 'r' {
        'R'
    } else if c == 's' {
        'S'
    } else if c == 't' {
        'T'
    } else if c == 'u' {
        'U'
    } else if c == 'v' {
        'V'
    } else if c == 'w' {
        'W'
    } else if c == 'x' {
        'X'
    } else if c == 'y' {
        'Y'
    } else if c == 'z' {
        'Z'
    } else {
        c
    }
}

/// Whether `c` is an ASCII upper-case letter.
pub open spec fn spec_is_upper(c: char) -> bool {
    spec_lower_char(c) != c
}

/// What one character contributes to the snake-case form: upper-case
/// letters become an underscore and their lower-case form.
pub open spec fn spec_snake_char(c: char) -> Seq<char> {
    if spec_is_upper(c) {
        seq!['_', spec_lower_char(c)]
    } else {
        seq![c]
    }
}

/// The snake-case form of a camel-case identifier.
pub open spec fn spec_camel_to_snake(s: Seq<char>) -> Seq<char>
    decreases s.len(),
{
    if s.len() == 0 {
        Seq::empty()
    } else {
        spec_camel_to_snake(s.drop_last()) + spec_snake_char(s.last())
    }
}

/// The upper-case form of a string, by ASCII letters.
pub open spec fn spec_to_upper(s: Seq<char>) -> Seq<char>
    decreases s.len(),
{
    if s.len() == 0 {
        Seq::empty()
    } else {
        spec_to_upper(s.drop_last()).push(spec_upper_char(s.last()))
    }
}

/// Appends what one character contributes to the snake-case form.
fn push_snake_char(out: &mut String, src: &str, i: usize)
    requires
        i < src@.len(),
        i < usize::MAX,
    ensures
        final(out)@ == old(out)@ + spec_snake_char(src@[i as int]),
{
    let c = src.get_char(i);
    let lit: Option<&str> = match c {
        'A' => Some("_a"),
        'B' => Some("_b"),
        'C' => Some("_c"),
        'D' => Some("_d"),
        'E' => Some("_e"),
        'F' => Some("_f"),
        'G' => Some("_g"),
        'H' => Some("_h"),
        'I' => Some("_i"),
        'J' => Some("_j"),
        'K' => Some("_k"),
        'L' => Some("_l"),
        'M' => Some("_m"),
        'N' => Some("_n"),
        'O' => Some("_o"),
        'P' => Some("_p"),
        'Q' => Some("_q"),
        'R' => Some("_r"),
        'S' => Some("_s"),
        'T' => Some("_t"),
        'U' => Some("_u"),
        'V' => Some("_v"),
        'W' => Some("_w"),
        'X' => Some("_x"),
        'Y' => Some("_y"),
        'Z' => Some("_z"),
        _ => None,
    };
    match lit {
        Some(l) => {
            proof {
                reveal_strlit("_a");
                reveal_strlit("_b");
                reveal_strlit("_c");
                reveal_strlit("_d");
                reveal_strlit("_e");
                reveal_strlit("_f");
                reveal_strlit("_g");
                reveal_strlit("_h");
                reveal_strlit("_i");
                reveal_strlit("_j");
                reveal_strlit("_k");
                reveal_strlit("_l");
                reveal_strlit("_m");
                reveal_strlit("_n");
                reveal_strlit("_o");
                reveal_strlit("_p");
                reveal_strlit("_q");
                reveal_strlit("_r");
                reveal_strlit("_s");
                reveal_strlit("_t");
                reveal_strlit("_u");
                reveal_strlit("_v");
                reveal_strlit("_w");
                reveal_strlit("_x");
                reveal_strlit("_y");
                reveal_strlit("_z");
            }
            out.append(l);
            proof {
                assert(final(out)@ =~= old(out)@ + spec_snake_char(src@[i as int]));
            }
        },
        None => {
            let one = src.substring_char(i, i + 1);
            out.append(one);
            proof {
                assert(final(out)@ =~= old(out)@ + spec_snake_char(src@[i as int]));
            }
        },
    }
}

/// Appends the upper-case form of one character.
fn push_upper_char(out: &mut String, src: &str, i: usize)
    requires
        i < src@.len(),
        i < usize::MAX,
    ensures
        final(out)@ == old(out)@.push(spec_upper_char(src@[i as int])),
{
    let c = src.get_char(i);
    let lit: Option<&str> = match c {
        'a' => Some("A"),
        'b' => Some("B"),
        'c' => Some("C"),
        'd' => Some("D"),
        'e' => Some("E"),
        'f' => Some("F"),
        'g' => Some("G"),
        'h' => Some("H"),
        'i' => Some("I"),
        'j' => Some("J"),
        'k' => Some("K"),
        'l' => Some("L"),
        'm' => Some("M"),
        'n' => Some("N"),
        'o' => Some("O"),
        'p' => Some("P"),
        'q' => Some("Q"),
        'r' => Some("R"),
        's' => Some("S"),
        't' => Some("T"),
        'u' => Some("U"),
        'v' => Some("V"),
        'w' => Some("W"),
        'x' => Some("X"),
        'y' => Some("Y"),
        'z' => Some("Z"),
        _ => None,
    };
    match lit {
        Some(l) => {
            proof {
                reveal_strlit("A");
                reveal_strlit("B");
                reveal_strlit("C");
                reveal_strlit("D");
                reveal_strlit("E");
                reveal_strlit("F");
                reveal_strlit("G");
                reveal_strlit("H");
                reveal_strlit("I");
                reveal_strlit("J");
                reveal_strlit("K");
                reveal_strlit("L");
                reveal_strlit("M");
                reveal_strlit("N");
                reveal_strlit("O");
                reveal_strlit("P");
                reveal_strlit("Q");
                reveal_strlit("R");
                reveal_strlit("S");
                reveal_strlit("T");
                reveal_strlit("U");
                reveal_strlit("V");
                reveal_strlit("W");
                reveal_strlit("X");
                reveal_strlit("Y");
                reveal_strlit("Z");
            }
            out.append(l);
            proof {
                assert(final(out)@ =~= old(out)@.push(spec_upper_char(src@[i as int])));
            }
        },
        None => {
            let one = src.substring_char(i, i + 1);
            out.append(one);
            proof {
                assert(final(out)@ =~= old(out)@.push(spec_upper_char(src@[i as int])));
            }
        },
    }
}

/// Rewrites a camel-case identifier in snake case: each upper-case
/// letter becomes an underscore followed by its lower-case form.
pub fn camel_to_snake(str: String) -> (r: String)
    ensures
        r@ == spec_camel_to_snake(str@),
{
    let src = str.as_str();
    let n = src.unicode_len();
    let mut out = String::new();
    let mut i: usize = 0;
    proof {
        assert(out@ =~= spec_camel_to_snake(src@.subrange(0, 0)));
    }
    while i < n
        invariant
            0 <= i <= n,
            n == src@.len(),
            src@ == str@,
            out@ == spec_camel_to_snake(src@.subrange(0, i as int)),
        decreases n - i,
    {
        push_snake_char(&mut out, src, i);
        proof {
            assert(src@.subrange(0, i as int + 1).drop_last() =~= src@.subrange(0, i as int));
            assert(src@.subrange(0, i as int + 1).last() == src@[i as int]);
        }
        i += 1;
    }
    proof {
        assert(src@.subrange(0, n as int) =~= src@);
    }
    out
}

/// The upper-case form of a string, by ASCII letters.
pub fn to_upper(src: &str) -> (r: String)
    ensures
        r@ == spec_to_upper(src@),
{
    let n = src.unicode_len();
    let mut out = String::new();
    let mut i: usize = 0;
    proof {
        assert(out@ =~= spec_to_upper(src@.subrange(0, 0)));
    }
    while i < n
        invariant
            0 <= i <= n,
            n == src@.len(),
            out@ == spec_to_upper(src@.subrange(0, i as int)),
        decreases n - i,
    {
        push_upper_char(&mut out, src, i);
        proof {
            assert(src@.subrange(0, i as int + 1).drop_last() =~= src@.subrange(0, i as int));
            assert(src@.subrange(0, i as int + 1).last() == src@[i as int]);
        }
        i += 1;
    }
    proof {
        assert(src@.subrange(0, n as int) =~= src@);
    }
    out
}

/// Lines joined by a newline between consecutive items.
pub open spec fn spec_join_nl(items: Seq<Seq<char>>) -> Seq<char>
    decreases items.len(),
{
    if items.len() == 0 {
        Seq::empty()
    } else if items.len() == 1 {
        items[0]
    } else {
        spec_join_nl(items.drop_last()) + seq!['\n'] + items.last()
    }
}

/// One node's coordinate line, with its own trailing newline.
pub open spec fn spec_coord_line(n: Node) -> Seq<char> {
    dec_rep(n.id as nat) + seq![' '] + dec_rep_int(n.x as int) + seq![' '] + dec_rep_int(
        n.y as int,
    ) + seq!['\n']
}

/// One node's demand line.
pub open spec fn spec_demand_line(n: Node) -> Seq<char> {
    dec_rep(n.id as nat) + seq![' '] + dec_rep(n.demand as nat)
}

/// The display name of a problem kind.
pub open spec fn spec_kind_str(k: TspKind) -> Seq<char> {
    match k {
        TspKind::Tsp => "Tsp"@,
        TspKind::Atsp => "Atsp"@,
        TspKind::Sop => "Sop"@,
        TspKind::Hcp => "Hcp"@,
        TspKind::Cvrp => "Cvrp"@,
        TspKind::Tour => "Tour"@,
        TspKind::Undefined => "Undefined"@,
    }
}

/// The header lines every serialized instance starts with.
pub open spec fn spec_serialize_header(t: Instance) -> Seq<char> {
    "NAME: "@ + t.name@ + "\n"@ + "TYPE: "@ + spec_to_upper(spec_kind_str(t.kind)) + "\n"@
        + "COMMENT: "@ + t.comment@ + "\n"@ + "DIMENSION: "@ + dec_rep(t.dim as nat) + "\n"@
        + "CAPACITY: "@ + dec_rep(t.capacity as nat) + "\n"@ + "EDGE_WEIGHT_TYPE: "@
        + spec_to_upper(spec_camel_to_snake(t.weight_kind@)) + "\n"@ + "EDGE_WEIGHT_FORMAT: "@
        + spec_to_upper(spec_camel_to_snake(t.weight_format@)) + "\n"@ + "EDGE_DATA_FORMAT: "@
        + spec_to_upper(spec_camel_to_snake(t.edge_format@)) + "\n"@ + "NODE_COORD_TYPE: "@
        + spec_to_upper(spec_camel_to_snake(t.coord_kind@)) + "\n"@ + "DISP_DATA_TYPE: "@
        + spec_to_upper(spec_camel_to_snake(t.disp_kind@)) + "\n"@
}

/// The full serialized instance text: the header, then the coordinate,
/// depot and demand sections where the instance calls for them, then
/// the end marker.
pub open spec fn spec_serialize_tsp(t: Instance) -> Seq<char> {
    let head = spec_serialize_header(t);
    let with_coords = if t.coord_kind@ != "NoCoord"@ {
        head + "NODE_COORD_SECTION: \n"@ + spec_join_nl(
            t.nodes@.map_values(|n: Node| spec_coord_line(n)),
        ) + "\n"@
    } else {
        head
    };
    let with_depots = if t.kind is Cvrp {
        with_coords + "DEPOT_SECTION: \n"@ + spec_join_nl(
            t.depots@.map_values(|d: usize| dec_rep(d as nat)),
        ) + "\n-1\n"@
    } else {
        with_coords
    };
    let with_demands = if t.kind is Cvrp {
        with_depots + "DEMAND_SECTION: \n"@ + spec_join_nl(
            t.nodes@.map_values(|n: Node| spec_demand_line(n)),
        ) + "\n"@
    } else {
        with_depots
    };
    with_demands + "EOF\n"@
}

/// Whether the two strings hold the same characters.
fn string_eq_lit(a: &String, b: &str) -> (r: bool)
    ensures
        r == (a@ == b@),
{
    let bs = String::from_str(b);
    let r = a.eq(&bs);
    r
}

/// Appends the display name of a problem kind.
fn push_kind(out: &mut String, k: &TspKind)
    ensures
        final(out)@ == old(out)@ + spec_kind_str(*k),
{
    proof {
        reveal_strlit("Tsp");
        reveal_strlit("Atsp");
        reveal_strlit("Sop");
        reveal_strlit("Hcp");
        reveal_strlit("Cvrp");
        reveal_strlit("Tour");
        reveal_strlit("Undefined");
    }
    match k {
        TspKind::Tsp => out.append("Tsp"),
        TspKind::Atsp => out.append("Atsp"),
        TspKind::Sop => out.append("Sop"),
        TspKind::Hcp => out.append("Hcp"),
        TspKind::Cvrp => out.append("Cvrp"),
        TspKind::Tour => out.append("Tour"),
        TspKind::Undefined => out.append("Undefined"),
    }
}

/// Appends the coordinate lines of all nodes, joined by newlines.
fn push_coord_lines(out: &mut String, nodes: &Vec<Node>)
    requires
        nodes@.len() >= 1,
    ensures
        final(out)@ == old(out)@ + spec_join_nl(nodes@.map_values(|n: Node| spec_coord_line(n))),
{
    let ghost f: spec_fn(Node) -> Seq<char> = |n: Node| spec_coord_line(n);
    let mut i: usize = 0;
    while i < nodes.len()
        invariant
            1 <= nodes@.len(),
            0 <= i <= nodes@.len(),
            f == (|n: Node| spec_coord_line(n)),
            out@ == old(out)@ + spec_join_nl(nodes@.subrange(0, i as int).map_values(f)),
        decreases nodes@.len() - i,
    {
        let ghost pre = nodes@.subrange(0, i as int).map_values(f);
        let ghost post = nodes@.subrange(0, i as int + 1).map_values(f);
        proof {
            assert(post =~= pre.push(f(nodes@[i as int])));
            assert(post.drop_last() =~= pre);
        }
        if i > 0 {
            proof {
                reveal_strlit("\n");
            }
            out.append("\n");
        } else {
            proof {
                assert(pre =~= Seq::<Seq<char>>::empty());
                assert(spec_join_nl(pre) =~= Seq::<char>::empty());
            }
        }
        let n = nodes[i];
        push_u64(out, n.id as u64);
        proof {
            reveal_strlit(" ");
        }
        out.append(" ");
        push_i64(out, n.x);
        out.append(" ");
        push_i64(out, n.y);
        proof {
            reveal_strlit("\n");
        }
        out.append("\n");
        proof {
            assert(out@ =~= old(out)@ + spec_join_nl(post));
        }
        i += 1;
    }
    proof {
        assert(nodes@.subrange(0, nodes@.len() as int) =~= nodes@);
    }
}

/// Appends the depot identifiers, joined by newlines.
fn push_depot_lines(out: &mut String, depots: &Vec<usize>)
    requires
        depots@.len() >= 1,
    ensures
        final(out)@ == old(out)@ + spec_join_nl(
            depots@.map_values(|d: usize| dec_rep(d as nat)),
        ),
{
    let ghost f: spec_fn(usize) -> Seq<char> = |d: usize| dec_rep(d as nat);
    let mut i: usize = 0;
    while i < depots.len()
        invariant
            1 <= depots@.len(),
            0 <= i <= depots@.len(),
            f == (|d: usize| dec_rep(d as nat)),
            out@ == old(out)@ + spec_join_nl(depots@.subrange(0, i as int).map_values(f)),
        decreases depots@.len() - i,
    {
        let ghost pre = depots@.subrange(0, i as int).map_values(f);
        let ghost post = depots@.subrange(0, i as int + 1).map_values(f);
        proof {
            assert(post =~= pre.push(f(depots@[i as int])));
            assert(post.drop_last() =~= pre);
        }
        if i > 0 {
            proof {
                reveal_strlit("\n");
            }
            out.append("\n");
        } else {
            proof {
                assert(pre =~= Seq::<Seq<char>>::empty());
                assert(spec_join_nl(pre) =~= Seq::<char>::empty());
            }
        }
        push_u64(out, depots[i] as u64);
        proof {
            assert(out@ =~= old(out)@ + spec_join_nl(post));
        }
        i += 1;
    }
    proof {
        assert(depots@.subrange(0, depots@.len() as int) =~= depots@);
    }
}

/// Appends the demand lines of all nodes, joined by newlines.
fn push_demand_lines(out: &mut String, nodes: &Vec<Node>)
    requires
        nodes@.len() >= 1,
    ensures
        final(out)@ == old(out)@ + spec_join_nl(nodes@.map_values(|n: Node| spec_demand_line(n))),
{
    let ghost f: spec_fn(Node) -> Seq<char> = |n: Node| spec_demand_line(n);
    let mut i: usize = 0;
    while i < nodes.len()
        invariant
            1 <= nodes@.len(),
            0 <= i <= nodes@.len(),
            f == (|n: Node| spec_demand_line(n)),
            out@ == old(out)@ + spec_join_nl(nodes@.subrange(0, i as int).map_values(f)),
        decreases nodes@.len() - i,
    {
        let ghost pre = nodes@.subrange(0, i as int).map_values(f);
        let ghost post = nodes@.subrange(0, i as int + 1).map_values(f);
        proof {
            assert(post =~= pre.push(f(nodes@[i as int])));
            assert(post.drop_last() =~= pre);
        }
        if i > 0 {
            proof {
                reveal_strlit("\n");
            }
            out.append("\n");
        } else {
            proof {
                assert(pre =~= Seq::<Seq<char>>::empty());
                assert(spec_join_nl(pre) =~= Seq::<char>::empty());
            }
        }
        let n = nodes[i];
        push_u64(out, n.id as u64);
        proof {
            reveal_strlit(" ");
        }
        out.append(" ");
        push_u64(out, n.demand);
        proof {
            assert(out@ =~= old(out)@ + spec_join_nl(post));
        }
        i += 1;
    }
    proof {
        assert(nodes@.subrange(0, nodes@.len() as int) =~= nodes@);
    }
}

/// Serializes an instance in the text format it was read from: header
/// fields, then the coordinate section when coordinates are declared,
/// and for the capacitated routing kind the depot and demand sections.
/// Fails exactly when a section the instance calls for has nothing to
/// hold.
pub fn serialize_tsp(tsp: &Instance) -> (r: Result<String, VrpError>)
    ensures
        r is Ok <==> !((tsp.coord_kind@ != "NoCoord"@ && tsp.nodes@.len() == 0) || (tsp.kind
            is Cvrp && (tsp.depots@.len() == 0 || tsp.nodes@.len() == 0))),
        r matches Ok(s) ==> s@ == spec_serialize_tsp(*tsp),
        r matches Err(e) ==> e == VrpError::EmptyInstance,
{
    let needs_coords = !string_eq_lit(&tsp.coord_kind, "NoCoord");
    if needs_coords && tsp.nodes.len() == 0 {
        return Err(VrpError::EmptyInstance);
    }
    let is_cvrp = matches!(tsp.kind, TspKind::Cvrp);
    if is_cvrp && (tsp.depots.len() == 0 || tsp.nodes.len() == 0) {
        return Err(VrpError::EmptyInstance);
    }
    let mut out = String::new();
    proof {
        reveal_strlit("NAME: ");
        reveal_strlit("TYPE: ");
        reveal_strlit("COMMENT: ");
        reveal_strlit("DIMENSION: ");
        reveal_strlit("CAPACITY: ");
        reveal_strlit("EDGE_WEIGHT_TYPE: ");
        reveal_strlit("EDGE_WEIGHT_FORMAT: ");
        reveal_strlit("EDGE_DATA_FORMAT: ");
        reveal_strlit("NODE_COORD_TYPE: ");
        reveal_strlit("DISP_DATA_TYPE: ");
        reveal_strlit("\n");
    }
    out.append("NAME: ");
    out.append(tsp.name.as_str());
    out.append("\n");
    out.append("TYPE: ");
    let mut kind_name = String::new();
    push_kind(&mut kind_name, &tsp.kind);
    let kind_upper = to_upper(kind_name.as_str());
    out.append(kind_upper.as_str());
    out.append("\n");
    out.append("COMMENT: ");
    out.append(tsp.comment.as_str());
    out.append("\n");
    out.append("DIMENSION: ");
    push_u64(&mut out, tsp.dim as u64);
    out.append("\n");
    out.append("CAPACITY: ");
    push_u64(&mut out, tsp.capacity);
    out.append("\n");
    out.append("EDGE_WEIGHT_TYPE: ");
    let wk = to_upper(camel_to_snake(clone_string(&tsp.weight_kind)).as_str());
    out.append(wk.as_str());
    out.append("\n");
    out.append("EDGE_WEIGHT_FORMAT: ");
    let wf = to_upper(camel_to_snake(clone_string(&tsp.weight_format)).as_str());
    out.append(wf.as_str());
    out.append("\n");
    out.append("EDGE_DATA_FORMAT: ");
    let ef = to_upper(camel_to_snake(clone_string(&tsp.edge_format)).as_str());
    out.append(ef.as_str());
    out.append("\n");
    out.append("NODE_COORD_TYPE: ");
    let ck = to_upper(camel_to_snake(clone_string(&tsp.coord_kind)).as_str());
    out.append(ck.as_str());
    out.append("\n");
    out.append("DISP_DATA_TYPE: ");
    let dk = to_upper(camel_to_snake(clone_string(&tsp.disp_kind)).as_str());
    out.append(dk.as_str());
    out.append("\n");
    proof {
        assert(out@ =~= spec_serialize_header(*tsp));
    }
    if needs_coords {
        proof {
            reveal_strlit("NODE_COORD_SECTION: \n");
        }
        out.append("NODE_COORD_SECTION: \n");
        push_coord_lines(&mut out, &tsp.nodes);
        proof {
            reveal_strlit("\n");
        }
        out.append("\n");
    }
    let ghost with_coords = out@;
    if is_cvrp {
        proof {
            reveal_strlit("DEPOT_SECTION: \n");
            reveal_strlit("\n-1\n");
        }
        out.append("DEPOT_SECTION: \n");
        push_depot_lines(&mut out, &tsp.depots);
        out.append("\n-1\n");
        proof {
            reveal_strlit("DEMAND_SECTION: \n");
            reveal_strlit("\n");
        }
        out.append("DEMAND_SECTION: \n");
        push_demand_lines(&mut out, &tsp.nodes);
        out.append("\n");
    }
    proof {
        reveal_strlit("EOF\n");
    }
    out.append("EOF\n");
    proof {
        assert(out@ =~= spec_serialize_tsp(*tsp));
    }
    Ok(out)
}

/// One tour's identifiers joined by single spaces.
pub open spec fn spec_join_sp(items: Seq<Seq<char>>) -> Seq<char>
    decreases items.len(),
{
    if items.len() == 0 {
        Seq::empty()
    } else if items.len() == 1 {
        items[0]
    } else {
        spec_join_sp(items.drop_last()) + seq![' '] + items.last()
    }
}

/// One tour's line in the tour format.
pub open spec fn spec_tour_line(tour: Seq<usize>) -> Seq<char> {
    spec_join_sp(tour.map_values(|id: usize| dec_rep(id as nat))) + " -1\n"@
}

/// The tour lines of the first `k` tours, concatenated.
pub open spec fn spec_tour_lines(paths: Seq<Seq<usize>>, k: int) -> Seq<char>
    decreases k,
{
    if k <= 0 {
        Seq::empty()
    } else {
        spec_tour_lines(paths, k - 1) + spec_tour_line(paths[k - 1])
    }
}

/// The tour-format text of a solution: a header naming the instance and
/// the achieved length, the declared dimension, one line per tour, and
/// the final terminator.
pub open spec fn spec_tour_file(vrp: Instance, paths: Seq<Seq<usize>>) -> Seq<char> {
    "NAME : "@ + vrp.name@ + " solved with length "@ + dec_rep(spec_score(vrp, paths) as nat)
        + "\n"@ + "TYPE : TOUR\n"@ + "DIMENSION : "@ + dec_rep(vrp.dim as nat) + "\n"@
        + "TOUR_SECTION\n"@ + spec_tour_lines(paths, paths.len() as int) + "-1\nEOF"@
}

/// Appends one tour's identifiers joined by spaces.
fn push_tour_ids(out: &mut String, tour: &Vec<usize>)
    ensures
        final(out)@ == old(out)@ + spec_join_sp(tour@.map_values(|id: usize| dec_rep(id as nat))),
{
    let ghost f: spec_fn(usize) -> Seq<char> = |id: usize| dec_rep(id as nat);
    let mut i: usize = 0;
    proof {
        assert(tour@.subrange(0, 0).map_values(f) =~= Seq::<Seq<char>>::empty());
        assert(spec_join_sp(tour@.subrange(0, 0).map_values(f)) =~= Seq::<char>::empty());
    }
    while i < tour.len()
        invariant
            0 <= i <= tour@.len(),
            f == (|id: usize| dec_rep(id as nat)),
            out@ == old(out)@ + spec_join_sp(tour@.subrange(0, i as int).map_values(f)),
        decreases tour@.len() - i,
    {
        let ghost pre = tour@.subrange(0, i as int).map_values(f);
        let ghost post = tour@.subrange(0, i as int + 1).map_values(f);
        proof {
            assert(post =~= pre.push(f(tour@[i as int])));
            assert(post.drop_last() =~= pre);
        }
        if i > 0 {
            proof {
                reveal_strlit(" ");
            }
            out.append(" ");
        }
        push_u64(out, tour[i] as u64);
        proof {
            assert(out@ =~= old(out)@ + spec_join_sp(post));
        }
        i += 1;
    }
    proof {
        assert(tour@.subrange(0, tour@.len() as int) =~= tour@);
    }
}

/// Writes a solution in the tour format, with the achieved length in
/// the header. Fails exactly when the solution cannot be scored against
/// the instance.
pub fn write_tours(vrp: &Instance, solution: &SolvingOutput) -> (r: Result<String, VrpError>)
    requires
        vrp.wf(),
    ensures
        r is Ok <==> (tours_ok(*vrp, solution@) && spec_score(*vrp, solution@) <= u128::MAX),
        r matches Ok(s) ==> s@ == spec_tour_file(*vrp, solution@),
        r matches Err(e) ==> e == VrpError::ExternalTool,
{
    let len = match crate::tsp_util::calculate_solution_score(vrp, solution.output()) {
        Some(len) => len,
        None => {
            return Err(VrpError::ExternalTool);
        },
    };
    let mut out = String::new();
    proof {
        reveal_strlit("NAME : ");
        reveal_strlit(" solved with length ");
        reveal_strlit("\n");
        reveal_strlit("TYPE : TOUR\n");
        reveal_strlit("DIMENSION : ");
        reveal_strlit("TOUR_SECTION\n");
        reveal_strlit("-1\nEOF");
        reveal_strlit(" -1\n");
    }
    out.append("NAME : ");
    out.append(vrp.name.as_str());
    out.append(" solved with length ");
    crate::num::push_u128(&mut out, len);
    out.append("\n");
    out.append("TYPE : TOUR\n");
    out.append("DIMENSION : ");
    push_u64(&mut out, vrp.dim as u64);
    out.append("\n");
    out.append("TOUR_SECTION\n");
    let ghost head = out@;
    let paths = solution.output();
    let mut k: usize = 0;
    proof {
        assert(paths.deep_view() == solution@);
    }
    while k < paths.len()
        invariant
            0 <= k <= paths@.len(),
            paths.deep_view() == solution@,
            solution@.len() == paths@.len(),
            forall|j: int| 0 <= j < paths@.len() ==> (#[trigger] solution@[j]) == paths@[j]@,
            out@ == head + spec_tour_lines(solution@, k as int),
        decreases paths@.len() - k,
    {
        push_tour_ids(&mut out, &paths[k]);
        proof {
            reveal_strlit(" -1\n");
        }
        out.append(" -1\n");
        proof {
            assert(out@ =~= head + spec_tour_lines(solution@, k as int + 1));
        }
        k += 1;
    }
    out.append("-1\nEOF");
    proof {
        assert(out@ =~= spec_tour_file(*vrp, solution@));
    }
    Ok(out)
}


} // verus!
