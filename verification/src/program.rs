//! The program model: a flat instruction sequence, a label table, and an
//! initial floor image.

use vstd::prelude::*;
use crate::datacube::DataCube;
use crate::errors::AsmParseError;
use crate::instruction::Instruction;

verus! {

/// A parsed program. Labels name instruction indices; every jump in
/// `instructions` must name a label held in `jump_label_lines`.
pub struct Program {
    pub instructions: Vec<Instruction>,
    pub initial_floor: Vec<Option<DataCube>>,
    pub jump_label_lines: Vec<(String, usize)>,
}

/// The label table as a map from label text to instruction index; a
/// repeated name keeps its later entry.
pub open spec fn label_map_of(v: Seq<(String, usize)>) -> Map<Seq<char>, usize>
    decreases v.len(),
{
    if v.len() == 0 {
        Map::empty()
    } else {
        label_map_of(v.drop_last()).insert(v.last().0@, v.last().1)
    }
}

/// No two entries of the label table share a name.
pub open spec fn labels_unique(v: Seq<(String, usize)>) -> bool {
    forall|i: int, j: int| 0 <= i < j < v.len() ==> (#[trigger] v[i]).0@ != (#[trigger] v[j]).0@
}

/// The label a jump instruction names, if it is a jump.
pub open spec fn jump_target(i: Instruction) -> Option<Seq<char>> {
    match i {
        Instruction::Jump(l) => Some(l@),
        Instruction::JumpZ(l) => Some(l@),
        Instruction::JumpN(l) => Some(l@),
        _ => None,
    }
}

/// An entry with the given name pins the map's value for that name.
pub proof fn lemma_label_map_entry(v: Seq<(String, usize)>, i: int)
    requires
        labels_unique(v),
        0 <= i < v.len(),
    ensures
        label_map_of(v).contains_key(v[i].0@),
        label_map_of(v)[v[i].0@] == v[i].1,
    decreases v.len(),
{
    if i + 1 == v.len() {
    } else {
        assert(v.drop_last()[i] == v[i]);
        lemma_label_map_entry(v.drop_last(), i);
        assert(v[i].0@ != v.last().0@);
    }
}

/// A name no entry carries is not in the map.
proof fn lemma_label_map_absent(v: Seq<(String, usize)>, name: Seq<char>)
    requires
        forall|i: int| 0 <= i < v.len() ==> (#[trigger] v[i]).0@ != name,
    ensures
        !label_map_of(v).contains_key(name),
    decreases v.len(),
{
    if v.len() > 0 {
        assert(forall|i: int|
            0 <= i < v.drop_last().len() ==> (#[trigger] v.drop_last()[i]).0@ != name);
        lemma_label_map_absent(v.drop_last(), name);
    }
}

/// Finds a label's instruction index in the table.
pub fn lookup_label(table: &Vec<(String, usize)>, name: &str) -> (r: Option<usize>)
    requires
        labels_unique(table@),
    ensures
        match r {
            Some(ix) => label_map_of(table@).contains_key(name@) && label_map_of(table@)[name@]
                == ix,
            None => !label_map_of(table@).contains_key(name@),
        },
{
    let n = table.len();
    let mut i: usize = 0;
    while i < n
        invariant
            0 <= i <= n,
            n == table@.len(),
            labels_unique(table@),
            forall|j: int| 0 <= j < i ==> (#[trigger] table@[j]).0@ != name@,
        decreases n - i,
    {
        if crate::text::str_eq(table[i].0.as_str(), name) {
            proof {
                lemma_label_map_entry(table@, i as int);
            }
            return Some(table[i].1);
        }
        i = i + 1;
    }
    proof {
        lemma_label_map_absent(table@, name@);
    }
    None
}

impl Program {
    /// The label table as a map.
    pub open spec fn labels(&self) -> Map<Seq<char>, usize> {
        label_map_of(self.jump_label_lines@)
    }

    /// What the core requires of a finished program: label names are
    /// unique, every jump names a known label, and every label points at
    /// an instruction index or just past the end.
    pub open spec fn wf(&self) -> bool {
        &&& labels_unique(self.jump_label_lines@)
        &&& forall|i: int|
            0 <= i < self.instructions@.len() ==> match jump_target(#[trigger] self.instructions@[i]) {
                Some(l) => self.labels().contains_key(l),
                None => true,
            }
        &&& forall|i: int|
            0 <= i < self.jump_label_lines@.len() ==> (#[trigger] self.jump_label_lines@[i]).1
                <= self.instructions@.len()
    }

    /// Checks that every jump names a label the table holds.
    pub fn validate_jumps(instructions: &Vec<Instruction>, table: &Vec<(String, usize)>) -> (r:
        Result<(), AsmParseError>)
        requires
            labels_unique(table@),
        ensures
            r is Ok <==> forall|i: int|
                0 <= i < instructions@.len() ==> match jump_target(#[trigger] instructions@[i]) {
                    Some(l) => label_map_of(table@).contains_key(l),
                    None => true,
                },
            r matches Err(AsmParseError::UnknownLabel(l)) ==> !label_map_of(
                table@,
            ).contains_key(l@) && exists|i: int|
                0 <= i < instructions@.len() && jump_target(#[trigger] instructions@[i]) == Some(
                    l@,
                ) && forall|j: int|
                    0 <= j < i ==> match jump_target(#[trigger] instructions@[j]) {
                        Some(l2) => label_map_of(table@).contains_key(l2),
                        None => true,
                    },
            r is Err ==> r matches Err(AsmParseError::UnknownLabel(_)),
    {
        let n = instructions.len();
        let mut i: usize = 0;
        while i < n
            invariant
                0 <= i <= n,
                n == instructions@.len(),
                labels_unique(table@),
                forall|j: int|
                    0 <= j < i ==> match jump_target(#[trigger] instructions@[j]) {
                        Some(l) => label_map_of(table@).contains_key(l),
                        None => true,
                    },
            decreases n - i,
        {
            let label = match &instructions[i] {
                Instruction::Jump(l) => Some(l),
                Instruction::JumpZ(l) => Some(l),
                Instruction::JumpN(l) => Some(l),
                _ => None,
            };
            if let Some(l) = label {
                if lookup_label(table, l.as_str()).is_none() {
                    proof {
                        // this is the first jump in instruction order
                        // whose label the table lacks
                        assert(jump_target(instructions@[i as int]) == Some(l@));
                    }
                    return Err(AsmParseError::UnknownLabel(l.clone()));
                }
            }
            i = i + 1;
        }
        Ok(())
    }
}

} // verus!

verus! {

/// Every value the label map holds comes from some table entry.
pub proof fn lemma_label_map_values(v: Seq<(String, usize)>, name: Seq<char>)
    requires
        label_map_of(v).contains_key(name),
    ensures
        exists|k: int|
            0 <= k < v.len() && (#[trigger] v[k]).0@ == name && v[k].1 == label_map_of(v)[name],
    decreases v.len(),
{
    if v.len() > 0 {
        if v.last().0@ == name {
            assert(v[v.len() - 1].0@ == name && v[v.len() - 1].1 == label_map_of(v)[name]);
        } else {
            lemma_label_map_values(v.drop_last(), name);
            let k = choose|k: int|
                0 <= k < v.drop_last().len() && (#[trigger] v.drop_last()[k]).0@ == name
                    && v.drop_last()[k].1 == label_map_of(v.drop_last())[name];
            assert(v[k].0@ == name && v[k].1 == label_map_of(v)[name]);
        }
    }
}

} // verus!

verus! {

use crate::text::{spec_lines, spec_trim, split_lines, str_eq, tokenize, trim, views_of};

/// The index of the first line whose trimmed text is non-empty.
pub open spec fn first_nonblank(ls: Seq<Seq<char>>) -> int
    decreases ls.len(),
{
    if ls.len() == 0 {
        0
    } else if spec_trim(ls[0]).len() == 0 {
        1 + first_nonblank(ls.drop_first())
    } else {
        0
    }
}

/// The input's first non-empty line is not the required header.
pub open spec fn header_bad(s: Seq<char>) -> bool {
    let ls = spec_lines(s);
    let fb = first_nonblank(ls);
    fb >= ls.len() || spec_trim(ls[fb]) != "-- HUMAN RESOURCE MACHINE PROGRAM --"@
}

proof fn lemma_first_nonblank_at(ls: Seq<Seq<char>>, a: int)
    requires
        0 <= a <= ls.len(),
        forall|i: int| 0 <= i < a ==> spec_trim(#[trigger] ls[i]).len() == 0,
        a == ls.len() || spec_trim(ls[a]).len() > 0,
    ensures
        first_nonblank(ls) == a,
    decreases a,
{
    if a == 0 {
    } else {
        assert(spec_trim(ls[0]).len() == 0);
        let l1 = ls.drop_first();
        assert forall|i: int| 0 <= i < a - 1 implies spec_trim(#[trigger] l1[i]).len() == 0 by {
            assert(l1[i] == ls[i + 1]);
        }
        if a < ls.len() {
            assert(l1[a - 1] == ls[a]);
        }
        lemma_first_nonblank_at(l1, a - 1);
    }
}

/// How a label declaration changes the table: an entry of the same name
/// moves to the new index, otherwise a new entry is appended.
pub open spec fn upsert_rel(
    pt: Seq<(String, usize)>,
    name: Seq<char>,
    idx: int,
    nt: Seq<(String, usize)>,
) -> bool {
    if exists|k: int| 0 <= k < pt.len() && (#[trigger] pt[k]).0@ == name {
        exists|k: int|
            0 <= k < pt.len() && (#[trigger] pt[k]).0@ == name && nt.len() == pt.len()
                && nt[k].0@ == name && nt[k].1 == idx && forall|q: int|
                0 <= q < pt.len() && q != k ==> #[trigger] nt[q] == pt[q]
    } else {
        nt.len() == pt.len() + 1 && nt.take(pt.len() as int) == pt && nt.last().0@ == name
            && nt.last().1 == idx
    }
}

/// What one consumed body line does to the parse state: a blank or
/// `COMMENT` line does nothing; a label declaration moves or adds its
/// table entry at the current instruction count; any other line appends
/// the instruction its tokens parse to. A line with a third token, a
/// label declaration with an argument, or an unparsable statement makes
/// no step.
pub open spec fn line_step(
    line: Seq<char>,
    pi: Seq<Instruction>,
    pt: Seq<(String, usize)>,
    ni: Seq<Instruction>,
    nt: Seq<(String, usize)>,
) -> bool {
    let toks = crate::text::line_tokens(line);
    if toks.len() == 0 || toks[0] == "COMMENT"@ {
        ni == pi && nt == pt
    } else if toks.len() > 2 {
        false
    } else if toks[0].len() > 0 && toks[0].last() == ':' {
        toks.len() == 1 && ni == pi && upsert_rel(pt, toks[0].drop_last(), pi.len() as int, nt)
    } else {
        nt == pt && exists|inst: Instruction|
            ni == #[trigger] pi.push(inst) && Instruction::spec_parse_from_args(
                toks[0],
                if toks.len() == 2 {
                    Some(toks[1])
                } else {
                    None
                },
                Ok(inst),
            )
    }
}

/// The parse state after consuming the lines from `start` up to `i`:
/// empty at `start`, then one `line_step` per line, none of which starts
/// with `DEFINE`.
pub open spec fn body_upto(
    lines: Seq<Seq<char>>,
    start: int,
    i: int,
    instrs: Seq<Instruction>,
    table: Seq<(String, usize)>,
) -> bool
    decreases i - start,
{
    if i <= start {
        instrs == Seq::<Instruction>::empty() && table == Seq::<(String, usize)>::empty()
    } else {
        (crate::text::line_tokens(lines[i - 1]).len() == 0 || crate::text::line_tokens(
            lines[i - 1],
        )[0] != "DEFINE"@) && exists|mi: Seq<Instruction>, mt: Seq<(String, usize)>|
            body_upto(lines, start, i - 1, mi, mt) && #[trigger] line_step(
                lines[i - 1],
                mi,
                mt,
                instrs,
                table,
            )
    }
}

/// Where the body parse stops: at the end of the lines, or at the first
/// line whose statement is `DEFINE`.
pub open spec fn body_stops(lines: Seq<Seq<char>>, i: int) -> bool {
    ||| i == lines.len()
    ||| (0 <= i < lines.len() && crate::text::line_tokens(lines[i]).len() > 0
        && crate::text::line_tokens(lines[i])[0] == "DEFINE"@)
}

/// A consumed-looking line the parser rejects, and with which error: a
/// third token, an argument on a label declaration, or a statement the
/// instruction grammar refuses.
pub open spec fn line_rejects(line: Seq<char>, e: AsmParseError) -> bool {
    let toks = crate::text::line_tokens(line);
    &&& toks.len() > 0
    &&& toks[0] != "DEFINE"@
    &&& toks[0] != "COMMENT"@
    &&& if toks.len() > 2 {
        e matches AsmParseError::UnexpectedToken(t) && t@ == toks[2]
    } else if toks[0].len() > 0 && toks[0].last() == ':' {
        toks.len() == 2 && (e matches AsmParseError::UnexpectedToken(t) && t@ == toks[1])
    } else {
        Instruction::spec_parse_from_args(
            toks[0],
            if toks.len() == 2 {
                Some(toks[1])
            } else {
                None
            },
            Err(e),
        )
    }
}

/// Some line the parse can reach raises the given error.
pub open spec fn some_line_rejects(ls: Seq<Seq<char>>, start: int, e: AsmParseError) -> bool {
    exists|i: int, mi: Seq<Instruction>, mt: Seq<(String, usize)>|
        start <= i < ls.len() && #[trigger] body_upto(ls, start, i, mi, mt) && line_rejects(
            ls[i],
            e,
        )
}

/// Adds a label, or moves an existing one of the same name to the new
/// index, keeping the names unique.
fn label_upsert(table: &mut Vec<(String, usize)>, name: String, idx: usize)
    requires
        labels_unique(old(table)@),
    ensures
        labels_unique(final(table)@),
        upsert_rel(old(table)@, name@, idx as int, final(table)@),
        forall|k: int|
            0 <= k < final(table)@.len() ==> (#[trigger] final(table)@[k]).1 == idx || exists|
                k2: int,
            |
                0 <= k2 < old(table)@.len() && final(table)@[k].1 == (#[trigger] old(
                    table,
                )@[k2]).1,
{
    let n = table.len();
    let mut w: usize = 0;
    while w < n
        invariant
            0 <= w <= n,
            n == table@.len(),
            table@ == old(table)@,
            labels_unique(table@),
            forall|q: int| 0 <= q < w ==> (#[trigger] table@[q]).0@ != name@,
        decreases n - w,
    {
        if str_eq(table[w].0.as_str(), name.as_str()) {
            let ghost pre = table@;
            table[w] = (name, idx);
            proof {
                assert(pre[w as int].0@ == name@);
                assert(table@[w as int].0@ == name@ && table@[w as int].1 == idx);
                assert(forall|q: int|
                    0 <= q < pre.len() && q != w ==> #[trigger] table@[q] == pre[q]);
                assert(upsert_rel(pre, name@, idx as int, table@));
                assert forall|k1: int, k2: int| 0 <= k1 < k2 < table@.len() implies (
                #[trigger] table@[k1]).0@ != (#[trigger] table@[k2]).0@ by {
                    assert(table@[k1].0@ == pre[k1].0@ && table@[k2].0@ == pre[k2].0@);
                }
                assert forall|k: int| 0 <= k < table@.len() implies (#[trigger] table@[k]).1 == idx
                    || exists|k2: int|
                    0 <= k2 < pre.len() && table@[k].1 == (#[trigger] pre[k2]).1 by {
                    if k != w {
                        assert(table@[k].1 == pre[k].1);
                    }
                }
            }
            return ;
        }
        w = w + 1;
    }
    let ghost pre = table@;
    table.push((name, idx));
    proof {
        assert(forall|k: int| 0 <= k < pre.len() ==> (#[trigger] pre[k]).0@ != name@);
        assert(table@.take(pre.len() as int) =~= pre);
        assert(table@.last().0@ == name@ && table@.last().1 == idx);
        assert(upsert_rel(pre, name@, idx as int, table@));
        assert forall|k1: int, k2: int| 0 <= k1 < k2 < table@.len() implies (
        #[trigger] table@[k1]).0@ != (#[trigger] table@[k2]).0@ by {
            if k2 < table@.len() - 1 {
                assert(table@[k1] == pre[k1] && table@[k2] == pre[k2]);
            } else {
                assert(table@[k1] == pre[k1]);
            }
        }
        assert forall|k: int| 0 <= k < table@.len() implies (#[trigger] table@[k]).1 == idx
            || exists|k2: int| 0 <= k2 < pre.len() && table@[k].1 == (#[trigger] pre[k2]).1 by {
            if k < table@.len() - 1 {
                assert(table@[k].1 == pre[k].1);
            }
        }
    }
}

impl Program {
    /// Reads a program from assembly text: a header line, then one
    /// statement per line, with `--` comments, label declarations ending
    /// in `:`, a `COMMENT` line ignored, and a `DEFINE` line ending the
    /// parse. The result is well formed: label names are unique, every
    /// jump names a declared label, and every label points into the
    /// instruction list or just past its end. The floor starts empty.
    /// Reads a program from assembly text: a header line, then one
    /// statement per line, with `--` comments, label declarations ending
    /// in `:`, a `COMMENT` line ignored, and a `DEFINE` line ending the
    /// parse. The result is the spec-level parse of the source lines: it
    /// is well formed, holds no label markers, and its floor starts
    /// empty; each error names the line condition that raised it.
    pub fn from_asm(source: &str) -> (r: Result<Program, AsmParseError>)
        ensures
            source@.len() == 0 <==> r matches Err(AsmParseError::EmptyFile),
            r matches Err(AsmParseError::MissingHeader) ==> header_bad(source@),
            source@.len() > 0 && header_bad(source@) ==> r matches Err(AsmParseError::MissingHeader),
            r matches Ok(p) ==> !header_bad(source@) && p.wf() && p.initial_floor@ == Seq::<
                Option<crate::datacube::DataCube>,
            >::empty() && (forall|k: int|
                0 <= k < p.instructions@.len() ==> !((#[trigger] p.instructions@[k])
                    matches Instruction::_Label(_))) && exists|stop: int|
                {
                    &&& first_nonblank(spec_lines(source@)) + 1 <= stop <= spec_lines(
                        source@,
                    ).len()
                    &&& #[trigger] body_stops(spec_lines(source@), stop)
                    &&& body_upto(
                        spec_lines(source@),
                        first_nonblank(spec_lines(source@)) + 1,
                        stop,
                        p.instructions@,
                        p.jump_label_lines@,
                    )
                },
            r matches Err(AsmParseError::UnexpectedToken(t)) ==> some_line_rejects(
                spec_lines(source@),
                first_nonblank(spec_lines(source@)) + 1,
                AsmParseError::UnexpectedToken(t),
            ),
            r matches Err(AsmParseError::ExpectedToken) ==> some_line_rejects(
                spec_lines(source@),
                first_nonblank(spec_lines(source@)) + 1,
                AsmParseError::ExpectedToken,
            ),
            r matches Err(AsmParseError::IntParseError) ==> some_line_rejects(
                spec_lines(source@),
                first_nonblank(spec_lines(source@)) + 1,
                AsmParseError::IntParseError,
            ),
            r matches Err(AsmParseError::UnknownLabel(l)) ==> exists|
                stop: int,
                mi: Seq<Instruction>,
                mt: Seq<(String, usize)>,
            |
                {
                    &&& first_nonblank(spec_lines(source@)) + 1 <= stop <= spec_lines(
                        source@,
                    ).len()
                    &&& body_stops(spec_lines(source@), stop)
                    &&& #[trigger] body_upto(
                        spec_lines(source@),
                        first_nonblank(spec_lines(source@)) + 1,
                        stop,
                        mi,
                        mt,
                    )
                    &&& !label_map_of(mt).contains_key(l@)
                    &&& exists|q: int|
                        0 <= q < mi.len() && jump_target(#[trigger] mi[q]) == Some(l@)
                },
    {
        if source.is_empty() {
            return Err(AsmParseError::EmptyFile);
        }
        let lines = split_lines(source);
        let nl = lines.len();
        let ghost vs = views_of(lines@);

        // skip blank lines, then expect the header
        let mut fb: usize = 0;
        while fb < nl && trim(lines[fb].as_str()).is_empty()
            invariant
                0 <= fb <= nl,
                nl == lines@.len(),
                vs == views_of(lines@),
                forall|i: int| 0 <= i < fb ==> spec_trim(#[trigger] vs[i]).len() == 0,
            decreases nl - fb,
        {
            fb = fb + 1;
        }
        if fb == nl {
            proof {
                lemma_first_nonblank_at(vs, fb as int);
            }
            return Err(AsmParseError::MissingHeader);
        }
        proof {
            lemma_first_nonblank_at(vs, fb as int);
        }
        if !str_eq(trim(lines[fb].as_str()), "-- HUMAN RESOURCE MACHINE PROGRAM --") {
            return Err(AsmParseError::MissingHeader);
        }
        proof {
            assert(!header_bad(source@));
        }

        // one statement per remaining line
        let mut instructions: Vec<Instruction> = Vec::new();
        let mut table: Vec<(String, usize)> = Vec::new();
        let mut i: usize = fb + 1;
        proof {
            assert(instructions@ =~= Seq::<Instruction>::empty());
            assert(table@ =~= Seq::<(String, usize)>::empty());
        }
        while i < nl
            invariant
                fb + 1 <= i <= nl,
                nl == lines@.len(),
                source@.len() > 0,
                !header_bad(source@),
                vs == views_of(lines@),
                vs == spec_lines(source@),
                first_nonblank(vs) == fb as int,
                labels_unique(table@),
                forall|k: int| 0 <= k < table@.len() ==> (#[trigger] table@[k]).1
                    <= instructions@.len(),
                forall|k: int|
                    0 <= k < instructions@.len() ==> !((#[trigger] instructions@[k])
                        matches Instruction::_Label(_)),
                body_upto(vs, fb as int + 1, i as int, instructions@, table@),
            ensures
                fb + 1 <= i <= nl,
                labels_unique(table@),
                forall|k: int| 0 <= k < table@.len() ==> (#[trigger] table@[k]).1
                    <= instructions@.len(),
                forall|k: int|
                    0 <= k < instructions@.len() ==> !((#[trigger] instructions@[k])
                        matches Instruction::_Label(_)),
                body_upto(vs, fb as int + 1, i as int, instructions@, table@),
                body_stops(vs, i as int),
            decreases nl - i,
        {
            let ghost pre_i = instructions@;
            let ghost pre_t = table@;
            let toks = tokenize(lines[i].as_str());
            proof {
                assert(vs[i as int] == (lines@[i as int])@);
                assert(crate::text::views_of(toks@) == crate::text::line_tokens(vs[i as int]));
            }
            if toks.len() == 0 {
                proof {
                    assert(line_step(vs[i as int], pre_i, pre_t, instructions@, table@));
                    assert(body_upto(vs, fb as int + 1, i as int + 1, instructions@, table@));
                }
                i = i + 1;
                continue;
            }
            proof {
                assert((toks@[0])@ == crate::text::line_tokens(vs[i as int])[0]);
            }
            if str_eq(toks[0].as_str(), "DEFINE") {
                proof {
                    assert(body_stops(vs, i as int));
                }
                break;
            }
            if str_eq(toks[0].as_str(), "COMMENT") {
                proof {
                    assert(line_step(vs[i as int], pre_i, pre_t, instructions@, table@));
                    assert(body_upto(vs, fb as int + 1, i as int + 1, instructions@, table@));
                }
                i = i + 1;
                continue;
            }
            if toks.len() > 2 {
                proof {
                    let e = AsmParseError::UnexpectedToken(toks@[2]);
                    assert((toks@[2])@ == crate::text::line_tokens(vs[i as int])[2]);
                    assert(line_rejects(vs[i as int], e));
                }
                return Err(AsmParseError::UnexpectedToken(toks[2].clone()));
            }
            let fl = toks[0].as_str().unicode_len();
            if fl > 0 && toks[0].as_str().get_char(fl - 1) == ':' {
                if toks.len() == 2 {
                    proof {
                        let e = AsmParseError::UnexpectedToken(toks@[1]);
                        assert((toks@[1])@ == crate::text::line_tokens(vs[i as int])[1]);
                        assert(line_rejects(vs[i as int], e));
                    }
                    return Err(AsmParseError::UnexpectedToken(toks[1].clone()));
                }
                let name = toks[0].as_str().substring_char(0, fl - 1).to_owned();
                proof {
                    assert(name@ =~= crate::text::line_tokens(vs[i as int])[0].drop_last());
                }
                let idx = instructions.len();
                let ghost pre = table@;
                label_upsert(&mut table, name, idx);
                proof {
                    assert forall|k: int| 0 <= k < table@.len() implies (#[trigger] table@[k]).1
                        <= instructions@.len() by {
                        if table@[k].1 != idx {
                            let k2 = choose|k2: int|
                                0 <= k2 < pre.len() && table@[k].1 == (#[trigger] pre[k2]).1;
                        }
                    }
                    assert(line_step(vs[i as int], pre_i, pre_t, instructions@, table@));
                    assert(body_upto(vs, fb as int + 1, i as int + 1, instructions@, table@));
                }
            } else {
                let arg: Option<&str> = if toks.len() == 2 {
                    Some(toks[1].as_str())
                } else {
                    None
                };
                let inst = match Instruction::parse_from_args(toks[0].as_str(), arg) {
                    Ok(x) => x,
                    Err(e) => {
                        proof {
                            assert(line_rejects(vs[i as int], e));
                        }
                        return Err(e);
                    },
                };
                proof {
                    assert(!(inst matches Instruction::_Label(_)));
                }
                instructions.push(inst);
                proof {
                    assert(instructions@ == pre_i.push(inst));
                    assert(line_step(vs[i as int], pre_i, pre_t, instructions@, table@));
                    assert(body_upto(vs, fb as int + 1, i as int + 1, instructions@, table@));
                }
            }
            i = i + 1;
        }

        match Program::validate_jumps(&instructions, &table) {
            Err(e) => {
                proof {
                    assert(e matches AsmParseError::UnknownLabel(_));
                }
                Err(e)
            },
            Ok(()) => {
                let p = Program {
                    instructions,
                    initial_floor: Vec::new(),
                    jump_label_lines: table,
                };
                proof {
                    assert(p.wf());
                }
                Ok(p)
            },
        }
    }
}

} // verus!
