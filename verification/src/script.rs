//! The edit-script emitter and the matching parser.
//!
//! A script holds one `insert <code> <word>` line per insertion, then one
//! `delete <code> <word>` line per deletion, and a final `save` line exactly
//! when the edit is non-empty; an empty edit produces an empty script.

use crate::loaddata::{
    lemma_lines_prepend, lemma_parse_entry_split, spec_lines, spec_parse_entry, ParseError,
};
use crate::sync::SyncResult;
use crate::words::{lemma_drop_first_to_set, WordSet, WordView};
use vstd::prelude::*;

verus! {

/// The keyword that opens an insertion line.
pub open spec fn insert_prefix() -> Seq<char> {
    "insert "@
}

/// The keyword that opens a deletion line.
pub open spec fn delete_prefix() -> Seq<char> {
    "delete "@
}

/// The trailing commit marker.
pub open spec fn save_line() -> Seq<char> {
    "save"@
}

/// One script line for the entry `w`.
pub open spec fn spec_entry_line(prefix: Seq<char>, w: WordView) -> Seq<char> {
    prefix + w.code + " "@ + w.word
}

/// The script lines of one group of entries, each closed by a newline.
pub open spec fn spec_emit_group(prefix: Seq<char>, ws: Seq<WordView>) -> Seq<char>
    decreases ws.len(),
{
    if ws.len() == 0 {
        Seq::<char>::empty()
    } else {
        spec_entry_line(prefix, ws[0]) + "\n"@ + spec_emit_group(prefix, ws.drop_first())
    }
}

/// The whole script for an edit: insertion lines, deletion lines, and the
/// `save` marker exactly when the edit is non-empty.
pub open spec fn spec_emit_script(ins: Seq<WordView>, del: Seq<WordView>) -> Seq<char> {
    spec_emit_group(insert_prefix(), ins) + spec_emit_group(delete_prefix(), del) + (if ins.len()
        == 0 && del.len() == 0 {
        Seq::<char>::empty()
    } else {
        save_line() + "\n"@
    })
}

/// An entry that a script line can carry faithfully: its code holds no space
/// and no newline, its word no newline.
pub open spec fn wf_entry(w: WordView) -> bool {
    &&& forall|j: int| 0 <= j < w.code.len() ==> w.code[j] != ' '
    &&& forall|j: int| 0 <= j < w.code.len() ==> w.code[j] != '\n'
    &&& forall|j: int| 0 <= j < w.word.len() ==> w.word[j] != '\n'
}

proof fn lemma_emit_group_concat(prefix: Seq<char>, s1: Seq<WordView>, s2: Seq<WordView>)
    ensures
        spec_emit_group(prefix, s1 + s2) == spec_emit_group(prefix, s1) + spec_emit_group(
            prefix,
            s2,
        ),
    decreases s1.len(),
{
    if s1.len() == 0 {
        assert(s1 + s2 =~= s2);
        assert(Seq::<char>::empty() + spec_emit_group(prefix, s2) =~= spec_emit_group(prefix, s2));
    } else {
        assert((s1 + s2).len() > 0);
        assert((s1 + s2)[0] == s1[0]);
        assert((s1 + s2).drop_first() =~= s1.drop_first() + s2);
        lemma_emit_group_concat(prefix, s1.drop_first(), s2);
        assert(spec_entry_line(prefix, s1[0]) + "\n"@ + (spec_emit_group(prefix, s1.drop_first())
            + spec_emit_group(prefix, s2)) =~= (spec_entry_line(prefix, s1[0]) + "\n"@
            + spec_emit_group(prefix, s1.drop_first())) + spec_emit_group(prefix, s2));
    }
}

/// Emits the edit script for one replica.
pub fn emit_script(result: &SyncResult) -> (out: String)
    ensures
        out@ == spec_emit_script(result.to_insert.seq(), result.to_delete.seq()),
{
    let ghost ins = result.to_insert.seq();
    let ghost del = result.to_delete.seq();
    let mut out = String::new();
    proof {
        assert(ins.take(0) =~= Seq::<WordView>::empty());
        assert(out@ =~= spec_emit_group(insert_prefix(), ins.take(0)));
    }
    let n = result.to_insert.len();
    let mut i: usize = 0;
    while i < n
        invariant
            n == ins.len(),
            ins == result.to_insert.seq(),
            i <= n,
            out@ == spec_emit_group(insert_prefix(), ins.take(i as int)),
        decreases n - i,
    {
        let w = result.to_insert.get(i);
        out.append("insert ");
        out.append(w.code.as_str());
        out.append(" ");
        out.append(w.word.as_str());
        out.append("\n");
        proof {
            assert(ins.take(i as int + 1) =~= ins.take(i as int) + seq![ins[i as int]]);
            lemma_emit_group_concat(insert_prefix(), ins.take(i as int), seq![ins[i as int]]);
            assert(seq![ins[i as int]].drop_first() =~= Seq::<WordView>::empty());
            assert(spec_emit_group(insert_prefix(), Seq::<WordView>::empty())
                == Seq::<char>::empty());
            assert(spec_emit_group(insert_prefix(), seq![ins[i as int]]) =~= spec_entry_line(
                insert_prefix(),
                ins[i as int],
            ) + "\n"@);
            assert(out@ =~= spec_emit_group(insert_prefix(), ins.take(i as int)) + (spec_entry_line(
                insert_prefix(),
                ins[i as int],
            ) + "\n"@));
        }
        i += 1;
    }
    proof {
        assert(ins.take(n as int) =~= ins);
        assert(del.take(0) =~= Seq::<WordView>::empty());
        assert(out@ + spec_emit_group(delete_prefix(), del.take(0)) =~= out@);
    }
    let ghost ins_text = spec_emit_group(insert_prefix(), ins);
    let m = result.to_delete.len();
    let mut j: usize = 0;
    while j < m
        invariant
            m == del.len(),
            del == result.to_delete.seq(),
            ins_text == spec_emit_group(insert_prefix(), result.to_insert.seq()),
            j <= m,
            out@ == ins_text + spec_emit_group(delete_prefix(), del.take(j as int)),
        decreases m - j,
    {
        let w = result.to_delete.get(j);
        out.append("delete ");
        out.append(w.code.as_str());
        out.append(" ");
        out.append(w.word.as_str());
        out.append("\n");
        proof {
            assert(del.take(j as int + 1) =~= del.take(j as int) + seq![del[j as int]]);
            lemma_emit_group_concat(delete_prefix(), del.take(j as int), seq![del[j as int]]);
            assert(seq![del[j as int]].drop_first() =~= Seq::<WordView>::empty());
            assert(spec_emit_group(delete_prefix(), Seq::<WordView>::empty())
                == Seq::<char>::empty());
            assert(spec_emit_group(delete_prefix(), seq![del[j as int]]) =~= spec_entry_line(
                delete_prefix(),
                del[j as int],
            ) + "\n"@);
            assert(out@ =~= ins_text + (spec_emit_group(delete_prefix(), del.take(j as int))
                + (spec_entry_line(delete_prefix(), del[j as int]) + "\n"@)));
        }
        j += 1;
    }
    proof {
        assert(del.take(m as int) =~= del);
    }
    let ins_empty = result.to_insert.is_empty();
    let del_empty = result.to_delete.is_empty();
    if !(ins_empty && del_empty) {
        out.append("save\n");
        proof {
            reveal_strlit("save\n");
            reveal_strlit("save");
            reveal_strlit("\n");
            assert("save\n"@ =~= save_line() + "\n"@);
            assert(out@ =~= spec_emit_script(ins, del));
        }
    } else {
        proof {
            assert(out@ + Seq::<char>::empty() =~= out@);
            assert(out@ =~= spec_emit_script(ins, del));
        }
    }
    out
}

/// A parsed edit script, line by line: every line must be a `save` marker, an
/// insertion or a deletion; the instructions' entries are gathered into the
/// two sets of an edit.
pub open spec fn spec_parse_script_lines(lines: Seq<Seq<char>>) -> Option<
    (Set<WordView>, Set<WordView>),
>
    decreases lines.len(),
{
    if lines.len() == 0 {
        Some((Set::<WordView>::empty(), Set::<WordView>::empty()))
    } else {
        let line = lines[0];
        if line == save_line() {
            spec_parse_script_lines(lines.drop_first())
        } else if line.len() >= 7 && line.take(7) == insert_prefix() {
            match spec_parse_entry(line.skip(7)) {
                None => None,
                Some(w) => match spec_parse_script_lines(lines.drop_first()) {
                    None => None,
                    Some(p) => Some((p.0.insert(w), p.1)),
                },
            }
        } else if line.len() >= 7 && line.take(7) == delete_prefix() {
            match spec_parse_entry(line.skip(7)) {
                None => None,
                Some(w) => match spec_parse_script_lines(lines.drop_first()) {
                    None => None,
                    Some(p) => Some((p.0, p.1.insert(w))),
                },
            }
        } else {
            None
        }
    }
}

/// A parsed edit script.
pub open spec fn spec_parse_script(s: Seq<char>) -> Option<(Set<WordView>, Set<WordView>)> {
    spec_parse_script_lines(spec_lines(s))
}

/// Joins instructions already gathered with the outcome of parsing the
/// remaining lines.
pub open spec fn with_script_entries(
    acc_ins: Set<WordView>,
    acc_del: Set<WordView>,
    r: Option<(Set<WordView>, Set<WordView>)>,
) -> Option<(Set<WordView>, Set<WordView>)> {
    match r {
        None => None,
        Some(p) => Some((acc_ins.union(p.0), acc_del.union(p.1))),
    }
}

/// Parses an edit script back into the edit it encodes.
pub fn parse_script(text: &str) -> (r: Result<SyncResult, ParseError>)
    ensures
        match r {
            Ok(res) => spec_parse_script(text@) == Some((res.to_insert@, res.to_delete@)),
            Err(_) => spec_parse_script(text@) is None,
        },
{
    let lines = crate::loaddata::split_lines(text);
    let ghost lviews = crate::loaddata::line_views(lines@);
    let save_str = "save".to_owned();
    let ins_str = "insert ".to_owned();
    let del_str = "delete ".to_owned();
    let mut acc_ins = WordSet::new();
    let mut acc_del = WordSet::new();
    let n = lines.len();
    let mut i: usize = 0;
    proof {
        assert(lviews.skip(0) =~= lviews);
        match spec_parse_script_lines(lviews) {
            None => {},
            Some(p) => {
                assert(Set::<WordView>::empty().union(p.0) =~= p.0);
                assert(Set::<WordView>::empty().union(p.1) =~= p.1);
            },
        }
    }
    while i < n
        invariant
            n == lines@.len(),
            lviews == crate::loaddata::line_views(lines@),
            lviews == spec_lines(text@),
            i <= n,
            save_str@ == save_line(),
            ins_str@ == insert_prefix(),
            del_str@ == delete_prefix(),
            spec_parse_script_lines(lviews) == with_script_entries(
                acc_ins@,
                acc_del@,
                spec_parse_script_lines(lviews.skip(i as int)),
            ),
        decreases n - i,
    {
        let line: &String = &lines[i];
        let ghost restl = lviews.skip(i as int);
        proof {
            assert(restl[0] == line@);
            assert(restl.drop_first() =~= lviews.skip(i as int + 1));
        }
        if *line == save_str {
            // nothing gathered from a save marker
        } else {
            let line_len = line.as_str().unicode_len();
            let mut matched = false;
            if line_len >= 7 {
                let head = line.as_str().substring_char(0, 7).to_owned();
                proof {
                    assert(head@ == line@.take(7));
                }
                let is_ins = head == ins_str;
                let is_del = head == del_str;
                if is_ins || is_del {
                    matched = true;
                    let rest = line.as_str().substring_char(7, line_len);
                    proof {
                        assert(rest@ == line@.skip(7));
                    }
                    match crate::loaddata::parse_entry_line(rest) {
                        None => {
                            proof {
                                assert(spec_parse_script_lines(restl) is None);
                            }
                            return Err(ParseError::MalformedLine);
                        },
                        Some(w) => {
                            let ghost ai0 = acc_ins@;
                            let ghost ad0 = acc_del@;
                            proof {
                                match spec_parse_script_lines(lviews.skip(i as int + 1)) {
                                    None => {},
                                    Some(p) => {
                                        assert(ai0.union(p.0.insert(w@)) =~= ai0.insert(
                                            w@,
                                        ).union(p.0));
                                        assert(ad0.union(p.1.insert(w@)) =~= ad0.insert(
                                            w@,
                                        ).union(p.1));
                                    },
                                }
                            }
                            if is_ins {
                                acc_ins = acc_ins.insert(w);
                            } else {
                                acc_del = acc_del.insert(w);
                            }
                        },
                    }
                }
            }
            if !matched {
                proof {
                    assert(spec_parse_script_lines(restl) is None);
                }
                return Err(ParseError::MalformedLine);
            }
        }
        i += 1;
    }
    proof {
        assert(lviews.skip(n as int) =~= Seq::<Seq<char>>::empty());
        assert(acc_ins@.union(Set::<WordView>::empty()) =~= acc_ins@);
        assert(acc_del@.union(Set::<WordView>::empty()) =~= acc_del@);
    }
    Ok(SyncResult { to_insert: acc_ins, to_delete: acc_del })
}

proof fn lemma_prefix_chars()
    ensures
        insert_prefix().len() == 7,
        delete_prefix().len() == 7,
        save_line().len() == 4,
        forall|j: int| 0 <= j < 7 ==> insert_prefix()[j] != '\n',
        forall|j: int| 0 <= j < 7 ==> delete_prefix()[j] != '\n',
        forall|j: int| 0 <= j < 4 ==> save_line()[j] != '\n',
        insert_prefix()[0] == 'i',
        delete_prefix()[0] == 'd',
{
    reveal_strlit("insert ");
    reveal_strlit("delete ");
    reveal_strlit("save");
}

proof fn lemma_entry_line_no_newline(prefix: Seq<char>, w: WordView)
    requires
        wf_entry(w),
        forall|j: int| 0 <= j < prefix.len() ==> prefix[j] != '\n',
    ensures
        forall|j: int|
            0 <= j < spec_entry_line(prefix, w).len() ==> spec_entry_line(prefix, w)[j] != '\n',
{
    reveal_strlit(" ");
    let l = spec_entry_line(prefix, w);
    assert(" "@.len() == 1);
    assert(" "@[0] == ' ');
    assert forall|j: int| 0 <= j < l.len() implies l[j] != '\n' by {
        if j < prefix.len() {
            assert(l[j] == prefix[j]);
        } else if j < prefix.len() + w.code.len() {
            assert(l[j] == w.code[j - prefix.len()]);
        } else if j == prefix.len() + w.code.len() {
            assert(l[j] == ' ');
        } else {
            assert(l[j] == w.word[j - prefix.len() - w.code.len() - 1]);
        }
    }
}

/// The script lines of one group of entries, as a sequence of lines.
pub open spec fn entry_lines(prefix: Seq<char>, ws: Seq<WordView>) -> Seq<Seq<char>> {
    ws.map_values(|w: WordView| spec_entry_line(prefix, w))
}

proof fn lemma_lines_of_group(prefix: Seq<char>, ws: Seq<WordView>, tail: Seq<char>)
    requires
        forall|k: int| 0 <= k < ws.len() ==> wf_entry(#[trigger] ws[k]),
        forall|j: int| 0 <= j < prefix.len() ==> prefix[j] != '\n',
    ensures
        spec_lines(spec_emit_group(prefix, ws) + tail) == entry_lines(prefix, ws) + spec_lines(
            tail,
        ),
    decreases ws.len(),
{
    if ws.len() == 0 {
        assert(spec_emit_group(prefix, ws) + tail =~= tail);
        assert(entry_lines(prefix, ws) =~= Seq::<Seq<char>>::empty());
        assert(Seq::<Seq<char>>::empty() + spec_lines(tail) =~= spec_lines(tail));
    } else {
        reveal_strlit("\n");
        let line0 = spec_entry_line(prefix, ws[0]);
        lemma_entry_line_no_newline(prefix, ws[0]);
        assert("\n"@ =~= seq!['\n']);
        let rest_text = spec_emit_group(prefix, ws.drop_first()) + tail;
        assert(spec_emit_group(prefix, ws) + tail =~= line0 + seq!['\n'] + rest_text);
        lemma_lines_prepend(line0, rest_text);
        assert forall|k: int| 0 <= k < ws.drop_first().len() implies wf_entry(
            #[trigger] ws.drop_first()[k],
        ) by {
            assert(ws.drop_first()[k] == ws[k + 1]);
        }
        lemma_lines_of_group(prefix, ws.drop_first(), tail);
        assert(entry_lines(prefix, ws) =~= seq![line0] + entry_lines(prefix, ws.drop_first()));
        assert(spec_lines(spec_emit_group(prefix, ws) + tail) =~= entry_lines(prefix, ws)
            + spec_lines(tail));
    }
}

proof fn lemma_parse_insert_line(w: WordView)
    requires
        wf_entry(w),
    ensures
        ({
            let line = spec_entry_line(insert_prefix(), w);
            &&& line != save_line()
            &&& line.len() >= 7
            &&& line.take(7) == insert_prefix()
            &&& spec_parse_entry(line.skip(7)) == Some(w)
        }),
{
    lemma_prefix_chars();
    reveal_strlit(" ");
    let line = spec_entry_line(insert_prefix(), w);
    assert(" "@.len() == 1);
    assert(" "@[0] == ' ');
    assert(line.len() == 8 + w.code.len() + w.word.len());
    assert(line.len() != save_line().len());
    assert(line.take(7) =~= insert_prefix());
    let rest = w.code + " "@ + w.word;
    assert(line.skip(7) =~= rest);
    assert(rest[w.code.len() as int] == ' ');
    assert forall|j: int| 0 <= j < w.code.len() implies rest[j] != ' ' by {
        assert(rest[j] == w.code[j]);
    }
    lemma_parse_entry_split(rest, w.code.len() as int);
    assert(rest.take(w.code.len() as int) =~= w.code);
    assert(rest.skip(w.code.len() as int + 1) =~= w.word);
    assert(WordView { code: rest.take(w.code.len() as int), word: rest.skip(w.code.len() as int + 1) } =~= w);
}

proof fn lemma_parse_delete_line(w: WordView)
    requires
        wf_entry(w),
    ensures
        ({
            let line = spec_entry_line(delete_prefix(), w);
            &&& line != save_line()
            &&& line.len() >= 7
            &&& line.take(7) != insert_prefix()
            &&& line.take(7) == delete_prefix()
            &&& spec_parse_entry(line.skip(7)) == Some(w)
        }),
{
    lemma_prefix_chars();
    reveal_strlit(" ");
    let line = spec_entry_line(delete_prefix(), w);
    assert(" "@.len() == 1);
    assert(" "@[0] == ' ');
    assert(line.len() == 8 + w.code.len() + w.word.len());
    assert(line.len() != save_line().len());
    assert(line.take(7) =~= delete_prefix());
    assert(line.take(7)[0] == 'd');
    assert(line.take(7) != insert_prefix());
    let rest = w.code + " "@ + w.word;
    assert(line.skip(7) =~= rest);
    assert(rest[w.code.len() as int] == ' ');
    assert forall|j: int| 0 <= j < w.code.len() implies rest[j] != ' ' by {
        assert(rest[j] == w.code[j]);
    }
    lemma_parse_entry_split(rest, w.code.len() as int);
    assert(rest.take(w.code.len() as int) =~= w.code);
    assert(rest.skip(w.code.len() as int + 1) =~= w.word);
    assert(WordView { code: rest.take(w.code.len() as int), word: rest.skip(w.code.len() as int + 1) } =~= w);
}

proof fn lemma_parse_insert_group(ins: Seq<WordView>, rest: Seq<Seq<char>>)
    requires
        forall|k: int| 0 <= k < ins.len() ==> wf_entry(#[trigger] ins[k]),
    ensures
        spec_parse_script_lines(entry_lines(insert_prefix(), ins) + rest) == (
        match spec_parse_script_lines(rest) {
            None => None,
            Some(p) => Some((p.0.union(ins.to_set()), p.1)),
        }),
    decreases ins.len(),
{
    if ins.len() == 0 {
        assert(entry_lines(insert_prefix(), ins) + rest =~= rest);
        match spec_parse_script_lines(rest) {
            None => {},
            Some(p) => {
                assert(ins.to_set() =~= Set::<WordView>::empty());
                assert(p.0.union(ins.to_set()) =~= p.0);
            },
        }
    } else {
        let lines = entry_lines(insert_prefix(), ins) + rest;
        assert(lines[0] == spec_entry_line(insert_prefix(), ins[0]));
        lemma_parse_insert_line(ins[0]);
        assert(lines.len() > 0);
        assert(lines.drop_first() =~= entry_lines(insert_prefix(), ins.drop_first()) + rest);
        assert forall|k: int| 0 <= k < ins.drop_first().len() implies wf_entry(
            #[trigger] ins.drop_first()[k],
        ) by {
            assert(ins.drop_first()[k] == ins[k + 1]);
        }
        lemma_parse_insert_group(ins.drop_first(), rest);
        lemma_drop_first_to_set(ins);
        match spec_parse_script_lines(rest) {
            None => {},
            Some(p) => {
                assert(p.0.union(ins.drop_first().to_set()).insert(ins[0]) =~= p.0.union(
                    ins.to_set(),
                ));
            },
        }
    }
}

proof fn lemma_parse_delete_group(del: Seq<WordView>, rest: Seq<Seq<char>>)
    requires
        forall|k: int| 0 <= k < del.len() ==> wf_entry(#[trigger] del[k]),
    ensures
        spec_parse_script_lines(entry_lines(delete_prefix(), del) + rest) == (
        match spec_parse_script_lines(rest) {
            None => None,
            Some(p) => Some((p.0, p.1.union(del.to_set()))),
        }),
    decreases del.len(),
{
    if del.len() == 0 {
        assert(entry_lines(delete_prefix(), del) + rest =~= rest);
        match spec_parse_script_lines(rest) {
            None => {},
            Some(p) => {
                assert(del.to_set() =~= Set::<WordView>::empty());
                assert(p.1.union(del.to_set()) =~= p.1);
            },
        }
    } else {
        let lines = entry_lines(delete_prefix(), del) + rest;
        assert(lines[0] == spec_entry_line(delete_prefix(), del[0]));
        lemma_parse_delete_line(del[0]);
        assert(lines.len() > 0);
        assert(lines.drop_first() =~= entry_lines(delete_prefix(), del.drop_first()) + rest);
        assert forall|k: int| 0 <= k < del.drop_first().len() implies wf_entry(
            #[trigger] del.drop_first()[k],
        ) by {
            assert(del.drop_first()[k] == del[k + 1]);
        }
        lemma_parse_delete_group(del.drop_first(), rest);
        lemma_drop_first_to_set(del);
        match spec_parse_script_lines(rest) {
            None => {},
            Some(p) => {
                assert(p.1.union(del.drop_first().to_set()).insert(del[0]) =~= p.1.union(
                    del.to_set(),
                ));
            },
        }
    }
}

/// Emitting a non-empty edit and parsing the produced script reproduces the
/// edit's two entry sets exactly, for entries a script line can carry; an
/// empty edit produces the empty script.
pub proof fn lemma_emit_parse_round_trip(ins: Seq<WordView>, del: Seq<WordView>)
    requires
        forall|k: int| 0 <= k < ins.len() ==> wf_entry(#[trigger] ins[k]),
        forall|k: int| 0 <= k < del.len() ==> wf_entry(#[trigger] del[k]),
    ensures
        spec_parse_script(spec_emit_script(ins, del)) == Some((ins.to_set(), del.to_set())),
        ins.len() == 0 && del.len() == 0 ==> spec_emit_script(ins, del) == Seq::<char>::empty(),
{
    lemma_prefix_chars();
    reveal_strlit("\n");
    let text = spec_emit_script(ins, del);
    if ins.len() == 0 && del.len() == 0 {
        assert(text =~= Seq::<char>::empty());
        assert(spec_lines(text) == Seq::<Seq<char>>::empty());
        assert(ins.to_set() =~= Set::<WordView>::empty());
        assert(del.to_set() =~= Set::<WordView>::empty());
    } else {
        let save_text = save_line() + "\n"@;
        let del_text = spec_emit_group(delete_prefix(), del);
        assert(text =~= spec_emit_group(insert_prefix(), ins) + (del_text + save_text));
        lemma_lines_of_group(insert_prefix(), ins, del_text + save_text);
        lemma_lines_of_group(delete_prefix(), del, save_text);
        assert("\n"@ =~= seq!['\n']);
        assert forall|j: int| 0 <= j < save_line().len() implies save_line()[j] != '\n' by {}
        assert(save_text =~= save_line() + seq!['\n'] + Seq::<char>::empty());
        lemma_lines_prepend(save_line(), Seq::<char>::empty());
        assert(spec_lines(Seq::<char>::empty()) == Seq::<Seq<char>>::empty());
        assert(spec_lines(save_text) =~= seq![save_line()]);
        assert(spec_lines(text) =~= entry_lines(insert_prefix(), ins) + (entry_lines(
            delete_prefix(),
            del,
        ) + seq![save_line()]));
        assert(seq![save_line()].drop_first() =~= Seq::<Seq<char>>::empty());
        assert(seq![save_line()][0] == save_line());
        assert(spec_parse_script_lines(Seq::<Seq<char>>::empty()) == Some(
            (Set::<WordView>::empty(), Set::<WordView>::empty()),
        ));
        assert(spec_parse_script_lines(seq![save_line()]) == Some(
            (Set::<WordView>::empty(), Set::<WordView>::empty()),
        ));
        lemma_parse_delete_group(del, seq![save_line()]);
        assert(Set::<WordView>::empty().union(del.to_set()) =~= del.to_set());
        lemma_parse_insert_group(ins, entry_lines(delete_prefix(), del) + seq![save_line()]);
        assert(Set::<WordView>::empty().union(ins.to_set()) =~= ins.to_set());
        assert(spec_parse_script(text) == Some((ins.to_set(), del.to_set())));
    }
}

} // verus!
