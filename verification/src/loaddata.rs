//! Replica snapshots and the parsers for the decoder's text streams.
//!
//! A decoded main dictionary is a text stream whose `[Data]` section holds
//! one `<code> <word>` entry per line; a decoded user dictionary holds a
//! `[New]` (or unlabeled) section, an `[Auto]` section that the core ignores,
//! and a `[Delete]` section of tombstones.  A line without the separating
//! space where an entry is expected is a fatal decode failure.

use crate::words::{Word, WordSet, WordView};
use vstd::prelude::*;

verus! {

/// A decode failure: an entry line without the `<code> <word>` separator, or
/// an edit-script line that is no instruction.
#[derive(Debug, PartialEq, Eq, Structural, Clone, Copy)]
pub enum ParseError {
    MalformedLine,
}

/// The state of one replica: shipped entries, user additions, and tombstones.
pub struct Dict {
    pub main: WordSet,
    pub user_new: WordSet,
    pub user_deleted: WordSet,
}

/// The mathematical value of a replica: three sets of entry values.
pub ghost struct DictView {
    pub main: Set<WordView>,
    pub user_new: Set<WordView>,
    pub user_deleted: Set<WordView>,
}

impl View for Dict {
    type V = DictView;

    open spec fn view(&self) -> DictView {
        DictView { main: self.main@, user_new: self.user_new@, user_deleted: self.user_deleted@ }
    }
}

/// The entries visible on a replica: (base ∪ added) \ deleted.
pub open spec fn effective(d: DictView) -> Set<WordView> {
    d.main.union(d.user_new).difference(d.user_deleted)
}

/// Splits an entry line at its first space: everything before is the code,
/// everything after is the word.  A line without a space is malformed.
pub open spec fn spec_parse_entry(line: Seq<char>) -> Option<WordView>
    decreases line.len(),
{
    if line.len() == 0 {
        None
    } else if line[0] == ' ' {
        Some(WordView { code: Seq::<char>::empty(), word: line.drop_first() })
    } else {
        match spec_parse_entry(line.drop_first()) {
            None => None,
            Some(w) => Some(WordView { code: seq![line[0]] + w.code, word: w.word }),
        }
    }
}

/// `spec_parse_entry` splits exactly at the first space.
pub proof fn lemma_parse_entry_split(line: Seq<char>, k: int)
    requires
        0 <= k < line.len(),
        line[k] == ' ',
        forall|j: int| 0 <= j < k ==> line[j] != ' ',
    ensures
        spec_parse_entry(line) == Some(
            WordView { code: line.take(k), word: line.skip(k + 1) },
        ),
    decreases k,
{
    if k == 0 {
        assert(line.take(0) =~= Seq::<char>::empty());
        assert(line.skip(1) =~= line.drop_first());
    } else {
        assert(line[0] != ' ');
        let d = line.drop_first();
        assert forall|j: int| 0 <= j < k - 1 implies d[j] != ' ' by {
            assert(line[j + 1] != ' ');
        }
        assert(d[k - 1] == ' ');
        lemma_parse_entry_split(d, k - 1);
        assert(seq![line[0]] + d.take(k - 1) =~= line.take(k));
        assert(d.skip(k) =~= line.skip(k + 1));
    }
}

/// A line with no space at all is malformed.
pub proof fn lemma_parse_entry_none(line: Seq<char>)
    requires
        forall|j: int| 0 <= j < line.len() ==> line[j] != ' ',
    ensures
        spec_parse_entry(line) is None,
    decreases line.len(),
{
    if line.len() > 0 {
        assert(line[0] != ' ');
        let d = line.drop_first();
        assert forall|j: int| 0 <= j < d.len() implies d[j] != ' ' by {
            assert(line[j + 1] != ' ');
        }
        lemma_parse_entry_none(d);
    }
}

/// Splits an entry line at its first space.
pub fn parse_entry_line(line: &str) -> (r: Option<Word>)
    ensures
        match r {
            Some(w) => spec_parse_entry(line@) == Some(w@),
            None => spec_parse_entry(line@) is None,
        },
{
    let n = line.unicode_len();
    let mut i: usize = 0;
    while i < n
        invariant
            n == line@.len(),
            i <= n,
            forall|j: int| 0 <= j < i ==> line@[j] != ' ',
        decreases n - i,
    {
        if line.get_char(i) == ' ' {
            let code = line.substring_char(0, i).to_owned();
            let word = line.substring_char(i + 1, n).to_owned();
            proof {
                lemma_parse_entry_split(line@, i as int);
            }
            return Some(Word { code, word });
        }
        i += 1;
    }
    proof {
        lemma_parse_entry_none(line@);
    }
    None
}

/// The lines of a text, split on `'\n'`.  A trailing newline closes the last
/// line rather than opening an empty one.
pub open spec fn spec_lines(s: Seq<char>) -> Seq<Seq<char>>
    decreases s.len(),
{
    if s.len() == 0 {
        Seq::empty()
    } else if s[0] == '\n' {
        seq![Seq::<char>::empty()] + spec_lines(s.drop_first())
    } else {
        let rest = spec_lines(s.drop_first());
        if rest.len() == 0 {
            seq![seq![s[0]]]
        } else {
            seq![seq![s[0]] + rest[0]] + rest.drop_first()
        }
    }
}

/// A newline-free line followed by `'\n'` is the first line of the whole.
pub proof fn lemma_lines_prepend(line: Seq<char>, rest: Seq<char>)
    requires
        forall|j: int| 0 <= j < line.len() ==> line[j] != '\n',
    ensures
        spec_lines(line + seq!['\n'] + rest) == seq![line] + spec_lines(rest),
    decreases line.len(),
{
    let s = line + seq!['\n'] + rest;
    if line.len() == 0 {
        assert(s =~= seq!['\n'] + rest);
        assert(s[0] == '\n');
        assert(s.drop_first() =~= rest);
        assert(line =~= Seq::<char>::empty());
        assert(spec_lines(s) == seq![Seq::<char>::empty()] + spec_lines(rest));
        assert(seq![line] == seq![Seq::<char>::empty()]);
    } else {
        let d = line.drop_first();
        assert forall|j: int| 0 <= j < d.len() implies d[j] != '\n' by {
            assert(line[j + 1] != '\n');
        }
        lemma_lines_prepend(d, rest);
        assert(s.len() > 0);
        assert(s[0] == line[0]);
        assert(line[0] != '\n');
        assert(s.drop_first() =~= d + seq!['\n'] + rest);
        let r0 = spec_lines(s.drop_first());
        assert(r0 == seq![d] + spec_lines(rest));
        assert(r0.len() >= 1);
        assert(r0[0] == d);
        assert(seq![s[0]] + r0[0] =~= line);
        assert(r0.drop_first() =~= spec_lines(rest));
        assert(spec_lines(s) == seq![seq![s[0]] + r0[0]] + r0.drop_first());
        assert(spec_lines(s) =~= seq![line] + spec_lines(rest));
    }
}

/// A non-empty text without newlines is one single line.
pub proof fn lemma_lines_single(line: Seq<char>)
    requires
        line.len() > 0,
        forall|j: int| 0 <= j < line.len() ==> line[j] != '\n',
    ensures
        spec_lines(line) == seq![line],
    decreases line.len(),
{
    assert(line[0] != '\n');
    if line.len() == 1 {
        assert(line.drop_first() =~= Seq::<char>::empty());
        assert(spec_lines(line.drop_first()) == Seq::<Seq<char>>::empty());
        assert(seq![line[0]] =~= line);
        assert(spec_lines(line) =~= seq![line]);
    } else {
        let d = line.drop_first();
        assert forall|j: int| 0 <= j < d.len() implies d[j] != '\n' by {
            assert(line[j + 1] != '\n');
        }
        lemma_lines_single(d);
        let r0 = spec_lines(d);
        assert(r0.len() == 1);
        assert(r0[0] == d);
        assert(seq![line[0]] + d =~= line);
        assert(r0.drop_first() =~= Seq::<Seq<char>>::empty());
        assert(spec_lines(line) == seq![seq![line[0]] + r0[0]] + r0.drop_first());
        assert(spec_lines(line) =~= seq![line]);
    }
}

/// The views of a sequence of line strings.
pub open spec fn line_views(v: Seq<String>) -> Seq<Seq<char>> {
    v.map_values(|s: String| s@)
}

proof fn lemma_line_views_push(v: Seq<String>, s: String)
    ensures
        line_views(v.push(s)) == line_views(v).push(s@),
{
    assert forall|k: int| 0 <= k < v.len() + 1 implies line_views(v.push(s))[k] == line_views(
        v,
    ).push(s@)[k] by {
        if k < v.len() {
            assert(v.push(s)[k] == v[k]);
        } else {
            assert(v.push(s)[k] == s);
        }
    }
    assert(line_views(v.push(s)) =~= line_views(v).push(s@));
}

/// Splits a text into its lines.
pub fn split_lines(text: &str) -> (r: Vec<String>)
    ensures
        line_views(r@) == spec_lines(text@),
{
    let n = text.unicode_len();
    let mut r: Vec<String> = Vec::new();
    let mut start: usize = 0;
    let mut i: usize = 0;
    proof {
        assert(line_views(r@) =~= Seq::<Seq<char>>::empty());
        assert(text@.skip(0) =~= text@);
    }
    while i < n
        invariant
            n == text@.len(),
            start <= i <= n,
            forall|j: int| start <= j < i ==> text@[j] != '\n',
            spec_lines(text@) == line_views(r@) + spec_lines(text@.skip(start as int)),
        decreases n - i,
    {
        if text.get_char(i) == '\n' {
            let line = text.substring_char(start, i).to_owned();
            let ghost lv = line_views(r@);
            proof {
                assert forall|j: int| 0 <= j < line@.len() implies line@[j] != '\n' by {
                    assert(text@[start + j] != '\n');
                }
                assert(text@.skip(start as int) =~= line@ + seq!['\n'] + text@.skip(i as int + 1));
                lemma_lines_prepend(line@, text@.skip(i as int + 1));
            }
            r.push(line);
            proof {
                lemma_line_views_push(r@.drop_last(), r@.last());
                assert(r@.drop_last().push(r@.last()) =~= r@);
                assert(line_views(r@) + spec_lines(text@.skip(i as int + 1)) =~= lv + (seq![
                    text@.skip(start as int).take(0),
                ].drop_last() + (seq![line@] + spec_lines(text@.skip(i as int + 1)))));
                assert(line_views(r@) + spec_lines(text@.skip(i as int + 1)) =~= lv + (seq![line@]
                    + spec_lines(text@.skip(i as int + 1))));
                assert(lv + (seq![line@] + spec_lines(text@.skip(i as int + 1))) =~= lv + seq![
                    line@,
                ] + spec_lines(text@.skip(i as int + 1)));
            }
            start = i + 1;
        }
        i += 1;
    }
    let ghost tail = text@.skip(start as int);
    proof {
        if start < n {
            assert(tail.len() > 0);
            assert forall|j: int| 0 <= j < tail.len() implies tail[j] != '\n' by {
                assert(text@[start + j] != '\n');
            }
            lemma_lines_single(tail);
        } else {
            assert(tail =~= Seq::<char>::empty());
            assert(spec_lines(tail) == Seq::<Seq<char>>::empty());
        }
    }
    if start < n {
        let line = text.substring_char(start, n).to_owned();
        let ghost lv = line_views(r@);
        proof {
            assert(line@ =~= tail);
        }
        r.push(line);
        proof {
            lemma_line_views_push(r@.drop_last(), r@.last());
            assert(r@.drop_last().push(r@.last()) =~= r@);
            assert(line_views(r@) =~= lv + seq![tail]);
            assert(line_views(r@) =~= spec_lines(text@));
        }
    } else {
        proof {
            assert(line_views(r@) + Seq::<Seq<char>>::empty() =~= line_views(r@));
        }
    }
    r
}

/// The `[Data]` section of a decoded main dictionary, line by line: lines
/// before the `[Data]` header are ignored; every line after it must be a
/// well-formed entry.
pub open spec fn spec_parse_main(lines: Seq<Seq<char>>, in_data: bool) -> Option<Set<WordView>>
    decreases lines.len(),
{
    if lines.len() == 0 {
        Some(Set::<WordView>::empty())
    } else if !in_data {
        spec_parse_main(lines.drop_first(), lines[0] == "[Data]"@)
    } else {
        match spec_parse_entry(lines[0]) {
            None => None,
            Some(w) => match spec_parse_main(lines.drop_first(), true) {
                None => None,
                Some(s) => Some(s.insert(w)),
            },
        }
    }
}

/// Joins entries already gathered with the outcome of parsing the remainder.
pub open spec fn with_entries(acc: Set<WordView>, r: Option<Set<WordView>>) -> Option<
    Set<WordView>,
> {
    match r {
        None => None,
        Some(s) => Some(acc.union(s)),
    }
}

/// Parses a decoded main dictionary stream into its base entry set.
pub fn parse_main_text(text: &str) -> (r: Result<WordSet, ParseError>)
    ensures
        match r {
            Ok(s) => spec_parse_main(spec_lines(text@), false) == Some(s@),
            Err(_) => spec_parse_main(spec_lines(text@), false) is None,
        },
{
    let lines = split_lines(text);
    let ghost lviews = line_views(lines@);
    let hdr = "[Data]".to_owned();
    let mut acc = WordSet::new();
    let mut in_data = false;
    let n = lines.len();
    let mut i: usize = 0;
    proof {
        assert(lviews.skip(0) =~= lviews);
        match spec_parse_main(lviews, false) {
            None => {},
            Some(s) => {
                assert(Set::<WordView>::empty().union(s) =~= s);
            },
        }
    }
    while i < n
        invariant
            n == lines@.len(),
            lviews == line_views(lines@),
            lviews == spec_lines(text@),
            i <= n,
            hdr@ == "[Data]"@,
            spec_parse_main(lviews, false) == with_entries(
                acc@,
                spec_parse_main(lviews.skip(i as int), in_data),
            ),
        decreases n - i,
    {
        let line: &String = &lines[i];
        let ghost restl = lviews.skip(i as int);
        proof {
            assert(restl[0] == line@);
            assert(restl.drop_first() =~= lviews.skip(i as int + 1));
        }
        if !in_data {
            let is_hdr = *line == hdr;
            if is_hdr {
                in_data = true;
            }
            proof {
                assert(spec_parse_main(restl, false) == spec_parse_main(
                    lviews.skip(i as int + 1),
                    line@ == "[Data]"@,
                ));
            }
        } else {
            match parse_entry_line(line.as_str()) {
                None => {
                    proof {
                        assert(spec_parse_main(restl, true) is None);
                    }
                    return Err(ParseError::MalformedLine);
                },
                Some(w) => {
                    let ghost acc0 = acc@;
                    proof {
                        match spec_parse_main(lviews.skip(i as int + 1), true) {
                            None => {},
                            Some(s) => {
                                assert(acc0.union(s.insert(w@)) =~= acc0.insert(w@).union(s));
                            },
                        }
                    }
                    acc = acc.insert(w);
                },
            }
        }
        i += 1;
    }
    proof {
        assert(lviews.skip(n as int) =~= Seq::<Seq<char>>::empty());
        assert(spec_parse_main(lviews.skip(n as int), in_data) == Some(Set::<WordView>::empty()));
        assert(acc@.union(Set::<WordView>::empty()) =~= acc@);
    }
    Ok(acc)
}

/// Which section of a decoded user dictionary a line belongs to.
pub enum UserdictSection {
    New,
    Auto,
    Delete,
}

/// A decoded user dictionary stream, line by line: `[New]`, `[Auto]` and
/// `[Delete]` headers switch sections; every other line must be a well-formed
/// entry.  `[New]` entries are the user's additions, `[Delete]` entries the
/// tombstones, `[Auto]` entries are ignored.
pub open spec fn spec_parse_user(lines: Seq<Seq<char>>, section: UserdictSection) -> Option<
    (Set<WordView>, Set<WordView>),
>
    decreases lines.len(),
{
    if lines.len() == 0 {
        Some((Set::<WordView>::empty(), Set::<WordView>::empty()))
    } else if lines[0] == "[New]"@ {
        spec_parse_user(lines.drop_first(), UserdictSection::New)
    } else if lines[0] == "[Auto]"@ {
        spec_parse_user(lines.drop_first(), UserdictSection::Auto)
    } else if lines[0] == "[Delete]"@ {
        spec_parse_user(lines.drop_first(), UserdictSection::Delete)
    } else {
        match spec_parse_entry(lines[0]) {
            None => None,
            Some(w) => match spec_parse_user(lines.drop_first(), section) {
                None => None,
                Some(p) => match section {
                    UserdictSection::New => Some((p.0.insert(w), p.1)),
                    UserdictSection::Auto => Some(p),
                    UserdictSection::Delete => Some((p.0, p.1.insert(w))),
                },
            },
        }
    }
}

/// Joins entries already gathered with the outcome of parsing the remainder.
pub open spec fn with_user_entries(
    acc_new: Set<WordView>,
    acc_del: Set<WordView>,
    r: Option<(Set<WordView>, Set<WordView>)>,
) -> Option<(Set<WordView>, Set<WordView>)> {
    match r {
        None => None,
        Some(p) => Some((acc_new.union(p.0), acc_del.union(p.1))),
    }
}

/// Parses a decoded user dictionary stream into the user's additions and
/// tombstones.
pub fn parse_user_text(text: &str) -> (r: Result<(WordSet, WordSet), ParseError>)
    ensures
        match r {
            Ok(p) => spec_parse_user(spec_lines(text@), UserdictSection::New) == Some(
                (p.0@, p.1@),
            ),
            Err(_) => spec_parse_user(spec_lines(text@), UserdictSection::New) is None,
        },
{
    let lines = split_lines(text);
    let ghost lviews = line_views(lines@);
    let hdr_new = "[New]".to_owned();
    let hdr_auto = "[Auto]".to_owned();
    let hdr_delete = "[Delete]".to_owned();
    let mut acc_new = WordSet::new();
    let mut acc_del = WordSet::new();
    let mut section = UserdictSection::New;
    let n = lines.len();
    let mut i: usize = 0;
    proof {
        assert(lviews.skip(0) =~= lviews);
        match spec_parse_user(lviews, UserdictSection::New) {
            None => {},
            Some(p) => {
                assert(Set::<WordView>::empty().union(p.0) =~= p.0);
                assert(Set::<WordView>::empty().union(p.1) =~= p.1);
            },
        }
    }
    while i < n
        invariant
            n == lines@.len(),
            lviews == line_views(lines@),
            lviews == spec_lines(text@),
            i <= n,
            hdr_new@ == "[New]"@,
            hdr_auto@ == "[Auto]"@,
            hdr_delete@ == "[Delete]"@,
            spec_parse_user(lviews, UserdictSection::New) == with_user_entries(
                acc_new@,
                acc_del@,
                spec_parse_user(lviews.skip(i as int), section),
            ),
        decreases n - i,
    {
        let line: &String = &lines[i];
        let ghost restl = lviews.skip(i as int);
        proof {
            assert(restl[0] == line@);
            assert(restl.drop_first() =~= lviews.skip(i as int + 1));
        }
        if *line == hdr_new {
            section = UserdictSection::New;
        } else if *line == hdr_auto {
            section = UserdictSection::Auto;
        } else if *line == hdr_delete {
            section = UserdictSection::Delete;
        } else {
            match parse_entry_line(line.as_str()) {
                None => {
                    proof {
                        assert(spec_parse_user(restl, section) is None);
                    }
                    return Err(ParseError::MalformedLine);
                },
                Some(w) => {
                    let ghost an0 = acc_new@;
                    let ghost ad0 = acc_del@;
                    proof {
                        match spec_parse_user(lviews.skip(i as int + 1), section) {
                            None => {},
                            Some(p) => {
                                assert(an0.union(p.0.insert(w@)) =~= an0.insert(w@).union(p.0));
                                assert(ad0.union(p.1.insert(w@)) =~= ad0.insert(w@).union(p.1));
                            },
                        }
                    }
                    match section {
                        UserdictSection::New => {
                            acc_new = acc_new.insert(w);
                        },
                        UserdictSection::Auto => {},
                        UserdictSection::Delete => {
                            acc_del = acc_del.insert(w);
                        },
                    }
                },
            }
        }
        i += 1;
    }
    proof {
        assert(lviews.skip(n as int) =~= Seq::<Seq<char>>::empty());
        assert(acc_new@.union(Set::<WordView>::empty()) =~= acc_new@);
        assert(acc_del@.union(Set::<WordView>::empty()) =~= acc_del@);
    }
    Ok((acc_new, acc_del))
}

impl Dict {
    /// Builds a replica snapshot from the decoder's two text streams: the
    /// decoded main dictionary and the decoded user dictionary.
    pub fn load_dict(main_text: &str, user_text: &str) -> (r: Result<Dict, ParseError>)
        ensures
            match r {
                Ok(d) => {
                    &&& spec_parse_main(spec_lines(main_text@), false) == Some(d.main@)
                    &&& spec_parse_user(spec_lines(user_text@), UserdictSection::New) == Some(
                        (d.user_new@, d.user_deleted@),
                    )
                },
                Err(_) => spec_parse_main(spec_lines(main_text@), false) is None
                    || spec_parse_user(spec_lines(user_text@), UserdictSection::New) is None,
            },
    {
        let main = match parse_main_text(main_text) {
            Ok(m) => m,
            Err(e) => {
                return Err(e);
            },
        };
        let user = match parse_user_text(user_text) {
            Ok(p) => p,
            Err(e) => {
                return Err(e);
            },
        };
        let (user_new, user_deleted) = user;
        Ok(Dict { main, user_new, user_deleted })
    }

    /// The entries currently visible on this replica, computed fresh.
    pub fn all_words(&self) -> (r: WordSet)
        ensures
            r@ == effective(self@),
    {
        self.main.union(&self.user_new).difference(&self.user_deleted)
    }
}

} // verus!
