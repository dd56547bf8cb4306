//! The emitters: manifest (a fixed two-command payload) and the OBJ-style
//! mesh text (a fixed dual cube, the second scaled by 1.618).
//!
//! Both deliberately ignore the IR they are handed: the language currently
//! defines fixed demonstration payloads, not a projection of the input.

use vstd::prelude::*;

use crate::ast::{Command, Ir, Manifest, manifest_view};
use crate::fmt::{fmt_milli_plain, push_milli_plain, lemma_fmt_milli_plain_chars, is_digit_char};
use crate::text::{line_seqs, lemma_line_seqs_extend, lemma_line_seqs_newline};

verus! {

/// The fixed manifest payload: `scale 1.618`, then `rotate_x 180.0`
/// (operands in thousandths).
pub open spec fn demo_manifest_view() -> Seq<(Seq<char>, int)> {
    seq![("scale"@, 1618int), ("rotate_x"@, 180000int)]
}

/// Emits the manifest: always the fixed two-command payload, whatever the IR
/// holds.
pub fn emit_manifest(ir: Ir) -> (m: Manifest)
    ensures
        manifest_view(m) == demo_manifest_view(),
{
    let mut commands: Vec<Command> = Vec::new();
    commands.push(Command { op: String::from_str("scale"), value_milli: 1618 });
    commands.push(Command { op: String::from_str("rotate_x"), value_milli: 180000 });
    let m = Manifest { commands };
    proof {
        assert(manifest_view(m) =~= demo_manifest_view());
    }
    m
}

/// The mesh vertex coordinate in thousandths: `bit` picks the sign, and the
/// second pass scales the unit cube by 1.618.
pub open spec fn coord_milli(bit: int, scaled: bool) -> int {
    if scaled {
        if bit == 0 {
            -1618
        } else {
            1618
        }
    } else {
        if bit == 0 {
            -1000
        } else {
            1000
        }
    }
}

/// Vertex line `k` of the mesh (without its newline): the first 8 walk the
/// unit cube with x outermost, the next 8 repeat the walk scaled.
pub open spec fn vline_chars(k: int) -> Seq<char> {
    let scaled = k >= 8;
    let b = if k >= 8 {
        k - 8
    } else {
        k
    };
    seq!['v', ' '] + fmt_milli_plain(coord_milli(b / 4, scaled)) + seq![' '] + fmt_milli_plain(
        coord_milli((b / 2) % 2, scaled),
    ) + seq![' '] + fmt_milli_plain(coord_milli(b % 2, scaled))
}

/// The leading comment line of the mesh (without its newline).
pub open spec fn obj_header() -> Seq<char> {
    "# QSGAL Tesseract Export"@
}

/// The first `k` vertex lines, each closed by a newline.
pub open spec fn obj_lines_upto(k: int) -> Seq<char>
    decreases k,
{
    if k <= 0 {
        Seq::<char>::empty()
    } else {
        obj_lines_upto(k - 1) + vline_chars(k - 1) + seq!['\n']
    }
}

/// The whole mesh text: the header comment and 16 vertex lines.
pub open spec fn obj_text() -> Seq<char> {
    obj_header() + seq!['\n'] + obj_lines_upto(16)
}

/// No vertex line holds a newline of its own.
proof fn lemma_vline_no_newline(k: int)
    ensures
        forall|i: int| 0 <= i < vline_chars(k).len() ==> #[trigger] vline_chars(k)[i] != '\n',
{
    let scaled = k >= 8;
    let b = if k >= 8 {
        k - 8
    } else {
        k
    };
    lemma_fmt_milli_plain_chars(coord_milli(b / 4, scaled));
    lemma_fmt_milli_plain_chars(coord_milli((b / 2) % 2, scaled));
    lemma_fmt_milli_plain_chars(coord_milli(b % 2, scaled));
    assert forall|i: int| 0 <= i < vline_chars(k).len() implies #[trigger] vline_chars(k)[i]
        != '\n' by {
        let c = vline_chars(k)[i];
        assert(c == 'v' || c == ' ' || is_digit_char(c) || c == '-' || c == '.');
    }
}

/// The split of the mesh text after `k` vertex lines: the header, then one
/// line per vertex, then the empty line the final newline opens.
proof fn lemma_obj_lines_split(k: int)
    requires
        0 <= k <= 16,
    ensures
        line_seqs(obj_header() + seq!['\n'] + obj_lines_upto(k)) == seq![obj_header()] + Seq::new(
            k as nat,
            |i: int| vline_chars(i),
        ) + seq![Seq::<char>::empty()],
    decreases k,
{
    reveal_strlit("# QSGAL Tesseract Export");
    if k == 0 {
        assert(forall|i: int| 0 <= i < obj_header().len() ==> #[trigger] obj_header()[i] != '\n');
        assert(Seq::<char>::empty() + obj_header() =~= obj_header());
        lemma_line_seqs_extend(Seq::<char>::empty(), obj_header());
        assert(line_seqs(Seq::<char>::empty()) == seq![Seq::<char>::empty()]);
        assert(line_seqs(obj_header()) =~= seq![obj_header()]);
        lemma_line_seqs_newline(obj_header());
        assert(obj_header() + seq!['\n'] + obj_lines_upto(0) =~= obj_header() + seq!['\n']);
        assert(line_seqs(obj_header() + seq!['\n'] + obj_lines_upto(0)) =~= seq![obj_header()]
            + Seq::new(0, |i: int| vline_chars(i)) + seq![Seq::<char>::empty()]);
    } else {
        lemma_obj_lines_split(k - 1);
        let base = obj_header() + seq!['\n'] + obj_lines_upto(k - 1);
        let p = line_seqs(base);
        lemma_vline_no_newline(k - 1);
        lemma_line_seqs_extend(base, vline_chars(k - 1));
        lemma_line_seqs_newline(base + vline_chars(k - 1));
        assert(base + vline_chars(k - 1) + seq!['\n'] =~= obj_header() + seq!['\n']
            + obj_lines_upto(k));
        assert(p.last() == Seq::<char>::empty());
        assert(p.last() + vline_chars(k - 1) =~= vline_chars(k - 1));
        assert(line_seqs(obj_header() + seq!['\n'] + obj_lines_upto(k)) == p.update(
            p.len() - 1,
            vline_chars(k - 1),
        ).push(Seq::<char>::empty()));
        assert(p.update(p.len() - 1, vline_chars(k - 1)).push(Seq::<char>::empty())
            =~= seq![obj_header()] + Seq::new(k as nat, |i: int| vline_chars(i)) + seq![
            Seq::<char>::empty(),
        ]);
    }
}

/// The shape of the mesh text: a header line, then exactly 16 vertex lines,
/// each starting with `v`; the first 8 walk the corners of the unit cube
/// with x outermost, and lines 8..16 repeat the walk with every coordinate
/// scaled by 1.618.
pub proof fn lemma_obj_text_lines()
    ensures
        line_seqs(obj_text()).len() == 18,
        line_seqs(obj_text())[0] == obj_header(),
        line_seqs(obj_text())[17] == Seq::<char>::empty(),
        forall|k: int| 0 <= k < 16 ==> #[trigger] line_seqs(obj_text())[k + 1] == vline_chars(k),
        forall|k: int| 0 <= k < 16 ==> #[trigger] vline_chars(k)[0] == 'v',
        forall|b: int, scaled: bool|
            0 <= b <= 1 ==> 1000 * #[trigger] coord_milli(b, scaled) == (if scaled {
                1618 * coord_milli(b, false)
            } else {
                1000 * coord_milli(b, false)
            }),
{
    lemma_obj_lines_split(16);
    assert(line_seqs(obj_text()).len() == 18);
    assert forall|k: int| 0 <= k < 16 implies #[trigger] line_seqs(obj_text())[k + 1]
        == vline_chars(k) by {
        assert(line_seqs(obj_text())[k + 1] == Seq::new(16, |i: int| vline_chars(i))[k]);
    }
}

fn coord_exec(bit: usize, scaled: bool) -> (c: i64)
    requires
        bit <= 1,
    ensures
        c == coord_milli(bit as int, scaled),
{
    if scaled {
        if bit == 0 {
            -1618
        } else {
            1618
        }
    } else {
        if bit == 0 {
            -1000
        } else {
            1000
        }
    }
}

/// Appends vertex line `k` and its newline.
#[verifier::rlimit(60)]
fn push_vline(s: &mut String, k: usize)
    requires
        k < 16,
    ensures
        final(s)@ == old(s)@ + vline_chars(k as int) + seq!['\n'],
{
    let scaled = k >= 8;
    let b = if k >= 8 {
        k - 8
    } else {
        k
    };
    let x = coord_exec(b / 4, scaled);
    let y = coord_exec((b / 2) % 2, scaled);
    let z = coord_exec(b % 2, scaled);
    s.append("v ");
    push_milli_plain(s, x);
    s.append(" ");
    push_milli_plain(s, y);
    s.append(" ");
    push_milli_plain(s, z);
    s.append("\n");
    proof {
        reveal_strlit("v ");
        reveal_strlit(" ");
        reveal_strlit("\n");
        assert("v "@ =~= seq!['v', ' ']);
        assert(" "@ =~= seq![' ']);
        assert("\n"@ =~= seq!['\n']);
        assert(s@ =~= old(s)@ + vline_chars(k as int) + seq!['\n']);
    }
}

/// Emits the mesh text: always the fixed dual cube, whatever the IR holds.
pub fn emit_obj(ir: Ir) -> (s: String)
    ensures
        s@ == obj_text(),
{
    let mut s = String::new();
    s.append("# QSGAL Tesseract Export\n");
    proof {
        reveal_strlit("# QSGAL Tesseract Export\n");
        reveal_strlit("# QSGAL Tesseract Export");
        assert(s@ =~= obj_header() + seq!['\n'] + obj_lines_upto(0));
    }
    let mut k: usize = 0;
    while k < 16
        invariant
            k <= 16,
            s@ == obj_header() + seq!['\n'] + obj_lines_upto(k as int),
        decreases 16 - k,
    {
        push_vline(&mut s, k);
        proof {
            assert(s@ =~= obj_header() + seq!['\n'] + obj_lines_upto(k as int + 1));
        }
        k = k + 1;
    }
    s
}

} // verus!
