//! The rename rule itself, line splitting, and rule derivation from two
//! line-aligned text buffers.

use vstd::prelude::*;

verus! {

/// One rename operation: move the file at `source` to `dest`.
#[derive(Debug)]
pub struct Rename {
    pub source: String,
    pub dest: String,
}

/// Mathematical image of a [`Rename`]: a pair of path strings.
pub ghost struct RenameV {
    pub source: Seq<char>,
    pub dest: Seq<char>,
}

impl View for Rename {
    type V = RenameV;

    open spec fn view(&self) -> RenameV {
        RenameV { source: self.source@, dest: self.dest@ }
    }
}

/// The views of a sequence of rules.
pub open spec fn rules_view(rs: Seq<Rename>) -> Seq<RenameV> {
    rs.map_values(|x: Rename| x@)
}

impl Rename {
    /// Build a rule from its two path strings.
    pub fn new(source: &str, dest: &str) -> (r: Self)
        ensures
            r@ == (RenameV { source: source@, dest: dest@ }),
    {
        Rename { source: source.to_owned(), dest: dest.to_owned() }
    }
}

/// A line with a trailing carriage return stripped: standard line splitting
/// treats a carriage return directly before the newline as part of the line
/// ending.
pub open spec fn strip_cr(l: Seq<char>) -> Seq<char> {
    if l.len() > 0 && l.last() == '\r' {
        l.drop_last()
    } else {
        l
    }
}

/// Index of the first newline in `s`, or `s.len()` when there is none.
pub open spec fn line_break(s: Seq<char>) -> nat
    decreases s.len(),
{
    if s.len() == 0 {
        0
    } else if s[0] == '\n' {
        0
    } else {
        1 + line_break(s.skip(1))
    }
}

/// The lines of a text buffer: split on newlines, a carriage return before
/// each newline stripped, and no empty final line for a buffer that ends
/// with a newline.
pub open spec fn spec_lines(s: Seq<char>) -> Seq<Seq<char>>
    decreases s.len(),
{
    if s.len() == 0 {
        Seq::empty()
    } else {
        let k = line_break(s) as int;
        if k >= s.len() {
            seq![s]
        } else {
            seq![strip_cr(s.take(k))] + spec_lines(s.skip(k + 1))
        }
    }
}

/// `line_break` is exactly the position of the first newline.
proof fn lemma_line_break_at(t: Seq<char>, k: int)
    requires
        0 <= k <= t.len(),
        forall|j: int| 0 <= j < k ==> t[j] != '\n',
        k < t.len() ==> t[k] == '\n',
    ensures
        line_break(t) == k,
    decreases t.len(),
{
    if t.len() == 0 {
    } else if t[0] == '\n' {
        assert(k == 0);
    } else {
        assert(k > 0);
        assert forall|j: int| 0 <= j < k - 1 implies t.skip(1)[j] != '\n' by {
            assert(t.skip(1)[j] == t[j + 1]);
        }
        assert(k - 1 < t.skip(1).len() ==> t.skip(1)[k - 1] == t[k]);
        lemma_line_break_at(t.skip(1), k - 1);
    }
}

/// Scan for the next newline at or after `pos`.
fn find_line_break(s: &str, pos: usize) -> (k: usize)
    requires
        pos <= s@.len(),
    ensures
        pos <= k <= s@.len(),
        forall|j: int| pos <= j < k ==> s@[j] != '\n',
        k < s@.len() ==> s@[k as int] == '\n',
{
    let n = s.unicode_len();
    let mut k: usize = pos;
    while k < n
        invariant
            pos <= k <= n,
            n == s@.len(),
            forall|j: int| pos <= j < k ==> s@[j] != '\n',
        ensures
            pos <= k <= n,
            forall|j: int| pos <= j < k ==> s@[j] != '\n',
            k < n ==> s@[k as int] == '\n',
        decreases n - k,
    {
        if s.get_char(k) == '\n' {
            break;
        }
        k = k + 1;
    }
    k
}

/// Split a text buffer into its lines, as `spec_lines` describes them.
pub fn split_lines(s: &str) -> (r: Vec<String>)
    ensures
        r@.map_values(|l: String| l@) == spec_lines(s@),
{
    let n = s.unicode_len();
    let mut out: Vec<String> = Vec::new();
    let mut pos: usize = 0;
    proof {
        assert(s@.skip(0) =~= s@);
        assert(out@.map_values(|l: String| l@) + spec_lines(s@) =~= spec_lines(s@));
    }
    while pos < n
        invariant
            pos <= n,
            n == s@.len(),
            spec_lines(s@) == out@.map_values(|l: String| l@) + spec_lines(s@.skip(pos as int)),
        decreases n - pos,
    {
        let ghost p0 = pos as int;
        let ghost t = s@.skip(pos as int);
        let k = find_line_break(s, pos);
        proof {
            assert forall|j: int| 0 <= j < k - pos implies t[j] != '\n' by {
                assert(t[j] == s@[pos + j]);
            }
            assert(k - pos < t.len() ==> t[k - pos] == s@[k as int]);
            lemma_line_break_at(t, k - pos);
        }
        let end = if k > pos && k < n && s.get_char(k - 1) == '\r' {
            k - 1
        } else {
            k
        };
        let line: String = s.substring_char(pos, end).to_owned();
        proof {
            let piece = s@.subrange(pos as int, k as int);
            if k < n {
                if k > pos && s@[k - 1] == '\r' {
                    assert(piece.last() == s@[k - 1]);
                    assert(line@ =~= piece.drop_last());
                } else {
                    if piece.len() > 0 {
                        assert(piece.last() == s@[k - 1]);
                    }
                    assert(line@ =~= piece);
                }
                assert(line@ == strip_cr(piece));
                assert(t.take(k - pos) =~= piece);
            } else {
                assert(line@ =~= piece);
                assert(t =~= piece);
            }
        }
        out.push(line);
        let ghost prev_out = out@.drop_last();
        proof {
            assert(out@.map_values(|l: String| l@) =~= prev_out.map_values(|l: String| l@)
                + seq![line@]);
        }
        if k < n {
            pos = k + 1;
            proof {
                assert(t.skip(k - p0 + 1) =~= s@.skip(pos as int));
                assert(spec_lines(t) == seq![line@] + spec_lines(s@.skip(pos as int)));
                assert(spec_lines(s@) =~= out@.map_values(|l: String| l@) + spec_lines(
                    s@.skip(pos as int),
                ));
            }
        } else {
            pos = n;
            proof {
                assert(line_break(t) == t.len());
                assert(spec_lines(t) == seq![t]);
                assert(spec_lines(t) == seq![line@]);
                assert(s@.skip(n as int) =~= Seq::<char>::empty());
                assert(spec_lines(s@) =~= out@.map_values(|l: String| l@) + spec_lines(
                    s@.skip(pos as int),
                ));
            }
        }
    }
    proof {
        assert(s@.skip(pos as int) =~= Seq::<char>::empty());
        assert(spec_lines(s@) =~= out@.map_values(|l: String| l@));
    }
    out
}

/// The rules derived from two line-aligned listings: one rule per position
/// where the lines differ, in line order.
pub open spec fn derive_view(old: Seq<Seq<char>>, new: Seq<Seq<char>>) -> Seq<RenameV>
    decreases old.len(),
{
    if old.len() == 0 || new.len() == 0 {
        Seq::empty()
    } else {
        let rest = derive_view(old.skip(1), new.skip(1));
        if old[0] == new[0] {
            rest
        } else {
            seq![RenameV { source: old[0], dest: new[0] }] + rest
        }
    }
}

/// Full specification of rule derivation on two text buffers: nothing when
/// the line counts differ, else one rule per differing line pair.
pub open spec fn spec_derive(old: Seq<char>, new: Seq<char>) -> Seq<RenameV> {
    if spec_lines(old).len() != spec_lines(new).len() {
        Seq::empty()
    } else {
        derive_view(spec_lines(old), spec_lines(new))
    }
}

/// Equal listings derive no rules.
pub proof fn lemma_derive_same(l: Seq<Seq<char>>)
    ensures
        derive_view(l, l) =~= Seq::<RenameV>::empty(),
    decreases l.len(),
{
    if l.len() > 0 {
        lemma_derive_same(l.skip(1));
    }
}

/// Derive the rename rules that turn the `old` listing into the `new` one.
/// Buffers whose line counts differ are an invalid edit and derive nothing;
/// identical buffers derive nothing.
pub fn find_file_renaming_rules(old: &str, new: &str) -> (r: Vec<Rename>)
    ensures
        rules_view(r@) == spec_derive(old@, new@),
        old@ == new@ ==> r@.len() == 0,
        spec_lines(old@).len() != spec_lines(new@).len() ==> r@.len() == 0,
{
    let old_lines = split_lines(old);
    let new_lines = split_lines(new);
    let ghost ol = spec_lines(old@);
    let ghost nl = spec_lines(new@);
    if old_lines.len() != new_lines.len() {
        let r: Vec<Rename> = Vec::new();
        proof {
            assert(rules_view(r@) =~= spec_derive(old@, new@));
        }
        return r;
    }
    let mut out: Vec<Rename> = Vec::new();
    let mut i: usize = 0;
    let n = old_lines.len();
    proof {
        assert(ol.skip(0) =~= ol);
        assert(nl.skip(0) =~= nl);
        assert(rules_view(out@) + derive_view(ol, nl) =~= derive_view(ol, nl));
    }
    while i < n
        invariant
            i <= n,
            n == old_lines.len() == new_lines.len(),
            old_lines@.map_values(|l: String| l@) == ol,
            new_lines@.map_values(|l: String| l@) == nl,
            ol.len() == nl.len(),
            derive_view(ol, nl) == rules_view(out@) + derive_view(
                ol.skip(i as int),
                nl.skip(i as int),
            ),
        decreases n - i,
    {
        let ghost orest = ol.skip(i as int);
        let ghost nrest = nl.skip(i as int);
        proof {
            assert(orest[0] == ol[i as int]);
            assert(nrest[0] == nl[i as int]);
            assert(orest.skip(1) =~= ol.skip(i + 1));
            assert(nrest.skip(1) =~= nl.skip(i + 1));
        }
        if old_lines[i] != new_lines[i] {
            let rule = Rename {
                source: old_lines[i].clone(),
                dest: new_lines[i].clone(),
            };
            out.push(rule);
            proof {
                let prev_out = out@.drop_last();
                assert(rules_view(out@) =~= rules_view(prev_out) + seq![rule@]);
                assert(derive_view(orest, nrest) == seq![rule@] + derive_view(
                    ol.skip(i + 1),
                    nl.skip(i + 1),
                ));
                assert(rules_view(out@) + derive_view(ol.skip(i + 1), nl.skip(i + 1))
                    =~= rules_view(prev_out) + derive_view(orest, nrest));
            }
        } else {
            proof {
                assert(derive_view(orest, nrest) == derive_view(ol.skip(i + 1), nl.skip(i + 1)));
            }
        }
        i = i + 1;
    }
    proof {
        assert(ol.skip(n as int) =~= Seq::<Seq<char>>::empty());
        assert(nl.skip(n as int) =~= Seq::<Seq<char>>::empty());
        assert(derive_view(ol, nl) =~= rules_view(out@));
        if old@ == new@ {
            lemma_derive_same(ol);
        }
    }
    out
}

/// True when the two buffers split into the same number of lines: the shape
/// that rule derivation requires of an edited listing.
pub fn input_shape_ok(old: &str, new: &str) -> (r: bool)
    ensures
        r == (spec_lines(old@).len() == spec_lines(new@).len()),
{
    let old_lines = split_lines(old);
    let new_lines = split_lines(new);
    old_lines.len() == new_lines.len()
}

} // verus!
