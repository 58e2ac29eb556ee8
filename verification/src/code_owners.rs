//! The ownership manifest: parsing its text into an ordered list of
//! rules.
//!
//! Each manifest line holds a pattern followed by one or more owners,
//! separated by whitespace. Lines starting with `#` are comments; lines
//! with fewer than two tokens are malformed. Both are dropped silently:
//! parsing is total and never fails. The surviving rules keep their
//! declaration order, which drives precedence during resolution.

use vstd::prelude::*;

use crate::matcher::copy_range;
use crate::{chars_of, string_of};

verus! {

/// A character that separates tokens within a manifest line.
pub open spec fn is_space(c: char) -> bool {
    c == ' ' || c == '\t' || c == '\r'
}

/// Index of the first newline in `s`, or `s.len()` if there is none.
pub open spec fn find_nl(s: Seq<char>) -> int
    decreases s.len(),
{
    if s.len() == 0 {
        0
    } else if s[0] == '\n' {
        0
    } else {
        1 + find_nl(s.skip(1))
    }
}

pub proof fn lemma_find_nl(s: Seq<char>)
    ensures
        0 <= find_nl(s) <= s.len(),
        find_nl(s) < s.len() ==> s[find_nl(s)] == '\n',
        forall|k: int| 0 <= k < find_nl(s) ==> s[k] != '\n',
    decreases s.len(),
{
    if s.len() > 0 && s[0] != '\n' {
        lemma_find_nl(s.skip(1));
        assert forall|k: int| 0 <= k < find_nl(s) implies s[k] != '\n' by {
            if k >= 1 {
                assert(s.skip(1)[k - 1] == s[k]);
            }
        }
    }
}

/// Index of the first whitespace character in `s`, or `s.len()`.
pub open spec fn find_sp(s: Seq<char>) -> int
    decreases s.len(),
{
    if s.len() == 0 {
        0
    } else if is_space(s[0]) {
        0
    } else {
        1 + find_sp(s.skip(1))
    }
}

pub proof fn lemma_find_sp(s: Seq<char>)
    ensures
        0 <= find_sp(s) <= s.len(),
        find_sp(s) < s.len() ==> is_space(s[find_sp(s)]),
        forall|k: int| 0 <= k < find_sp(s) ==> !is_space(s[k]),
    decreases s.len(),
{
    if s.len() > 0 && !is_space(s[0]) {
        lemma_find_sp(s.skip(1));
        assert forall|k: int| 0 <= k < find_sp(s) implies !is_space(s[k]) by {
            if k >= 1 {
                assert(s.skip(1)[k - 1] == s[k]);
            }
        }
    }
}

/// The lines of `s`, split on `\n`. A trailing newline yields a final
/// empty line, which the parser drops as malformed.
pub open spec fn split_lines(s: Seq<char>) -> Seq<Seq<char>>
    decreases s.len(),
    via split_lines_decreases
{
    if find_nl(s) >= s.len() {
        seq![s]
    } else {
        seq![s.take(find_nl(s))] + split_lines(s.skip(find_nl(s) + 1))
    }
}

#[via_fn]
proof fn split_lines_decreases(s: Seq<char>) {
    lemma_find_nl(s);
}

/// The whitespace-separated tokens of one line, in order.
pub open spec fn tokenize(s: Seq<char>) -> Seq<Seq<char>>
    decreases s.len(),
    via tokenize_decreases
{
    if s.len() == 0 {
        Seq::empty()
    } else if is_space(s[0]) {
        tokenize(s.skip(1))
    } else {
        seq![s.take(find_sp(s))] + tokenize(s.skip(find_sp(s)))
    }
}

#[via_fn]
proof fn tokenize_decreases(s: Seq<char>) {
    lemma_find_sp(s);
}

/// Every token is a nonempty run of characters.
pub proof fn lemma_tokens_nonempty(s: Seq<char>)
    ensures
        forall|i: int| 0 <= i < tokenize(s).len() ==> #[trigger] tokenize(s)[i].len() > 0,
    decreases s.len(),
{
    lemma_find_sp(s);
    if s.len() == 0 {
    } else if is_space(s[0]) {
        lemma_tokens_nonempty(s.skip(1));
        assert forall|i: int| 0 <= i < tokenize(s).len() implies #[trigger] tokenize(s)[i].len()
            > 0 by {
            assert(tokenize(s)[i] == tokenize(s.skip(1))[i]);
        }
    } else {
        lemma_find_sp(s.skip(1));
        lemma_tokens_nonempty(s.skip(find_sp(s)));
        assert forall|i: int| 0 <= i < tokenize(s).len() implies #[trigger] tokenize(s)[i].len()
            > 0 by {
            if i == 0 {
                assert(tokenize(s)[0] == s.take(find_sp(s)));
                assert(find_sp(s) >= 1);
            } else {
                assert(tokenize(s)[i] == tokenize(s.skip(find_sp(s)))[i - 1]);
            }
        }
    }
}

/// The rule declared by one manifest line: its pattern and its owners.
/// A comment line (first token starting with `#`) and a line with fewer
/// than two tokens declare no rule.
pub open spec fn line_rule(line: Seq<char>) -> Option<(Seq<char>, Seq<Seq<char>>)> {
    let toks = tokenize(line);
    if toks.len() >= 2 && toks[0][0] != '#' {
        Some((toks[0], toks.skip(1)))
    } else {
        None
    }
}

/// The rules declared by a sequence of lines, in declaration order.
pub open spec fn rules_of(lines: Seq<Seq<char>>) -> Seq<(Seq<char>, Seq<Seq<char>>)>
    decreases lines.len(),
{
    if lines.len() == 0 {
        Seq::empty()
    } else {
        match line_rule(lines[0]) {
            Some(r) => seq![r] + rules_of(lines.skip(1)),
            None => rules_of(lines.skip(1)),
        }
    }
}

/// The ordered rules declared by a whole manifest text.
pub open spec fn parse_model(text: Seq<char>) -> Seq<(Seq<char>, Seq<Seq<char>>)> {
    rules_of(split_lines(text))
}

/// One rule of the manifest: a path pattern and the owners declared
/// for it, in declaration order (duplicates kept).
pub struct Entry {
    pub path: String,
    pub owners: Vec<String>,
}

impl View for Entry {
    type V = (Seq<char>, Seq<Seq<char>>);

    open spec fn view(&self) -> (Seq<char>, Seq<Seq<char>>) {
        (self.path@, self.owners.deep_view())
    }
}

/// The model of a sequence of entries: each as its pattern and owners.
pub open spec fn entries_model(es: Seq<Entry>) -> Seq<(Seq<char>, Seq<Seq<char>>)> {
    Seq::new(es.len(), |i: int| es[i]@)
}

/// The parsed ownership manifest: its rules in declaration order.
pub struct CodeOwners {
    pub entries: Vec<Entry>,
}

impl View for CodeOwners {
    type V = Seq<(Seq<char>, Seq<Seq<char>>)>;

    open spec fn view(&self) -> Seq<(Seq<char>, Seq<Seq<char>>)> {
        entries_model(self.entries@)
    }
}

/// Lines with fewer than two tokens declare no rule: malformed and
/// blank lines are dropped without failing the parse.
pub proof fn lemma_malformed_line_no_rule(line: Seq<char>)
    requires
        tokenize(line).len() < 2,
    ensures
        line_rule(line) is None,
{
}

/// Every parsed rule has a nonempty pattern and at least one owner:
/// no partial rule survives parsing.
pub proof fn lemma_parsed_rules_wellformed(text: Seq<char>)
    ensures
        forall|i: int|
            0 <= i < parse_model(text).len() ==> (#[trigger] parse_model(text)[i]).0.len() > 0
                && parse_model(text)[i].1.len() >= 1,
{
    lemma_rules_wellformed(split_lines(text));
}

proof fn lemma_rules_wellformed(lines: Seq<Seq<char>>)
    ensures
        forall|i: int|
            0 <= i < rules_of(lines).len() ==> (#[trigger] rules_of(lines)[i]).0.len() > 0
                && rules_of(lines)[i].1.len() >= 1,
    decreases lines.len(),
{
    if lines.len() > 0 {
        lemma_rules_wellformed(lines.skip(1));
        lemma_tokens_nonempty(lines[0]);
        assert forall|i: int|
            0 <= i < rules_of(lines).len() implies (#[trigger] rules_of(lines)[i]).0.len() > 0
            && rules_of(lines)[i].1.len() >= 1 by {
            match line_rule(lines[0]) {
                Some(r) => {
                    if i == 0 {
                        assert(rules_of(lines)[0] == r);
                        assert(r.0 == tokenize(lines[0])[0]);
                        assert(r.1.len() == tokenize(lines[0]).len() - 1);
                    } else {
                        assert(rules_of(lines)[i] == rules_of(lines.skip(1))[i - 1]);
                    }
                },
                None => {
                    assert(rules_of(lines)[i] == rules_of(lines.skip(1))[i]);
                },
            }
        }
    }
}

/// Finds the next newline in `text` at or after `from`.
fn find_nl_from(text: &Vec<char>, from: usize) -> (r: usize)
    requires
        from <= text.len(),
    ensures
        from <= r <= text.len(),
        r - from == find_nl(text@.skip(from as int)),
    decreases text.len() - from,
{
    proof {
        lemma_find_nl(text@.skip(from as int));
    }
    if from == text.len() {
        from
    } else if text[from] == '\n' {
        from
    } else {
        proof {
            assert(text@.skip(from as int).skip(1) =~= text@.skip(from as int + 1));
        }
        find_nl_from(text, from + 1)
    }
}

/// Finds the next whitespace character in `line` at or after `from`.
fn find_sp_from(line: &Vec<char>, from: usize) -> (r: usize)
    requires
        from <= line.len(),
    ensures
        from <= r <= line.len(),
        r - from == find_sp(line@.skip(from as int)),
    decreases line.len() - from,
{
    proof {
        lemma_find_sp(line@.skip(from as int));
    }
    if from == line.len() {
        from
    } else if line[from] == ' ' || line[from] == '\t' || line[from] == '\r' {
        from
    } else {
        proof {
            assert(line@.skip(from as int).skip(1) =~= line@.skip(from as int + 1));
        }
        find_sp_from(line, from + 1)
    }
}

/// Splits the manifest text into its lines.
fn split_lines_exec(text: &Vec<char>) -> (r: Vec<Vec<char>>)
    ensures
        r.deep_view() == split_lines(text@),
{
    let mut lines: Vec<Vec<char>> = Vec::new();
    let mut start: usize = 0;
    proof {
        assert(text@.skip(0) =~= text@);
        assert(lines.deep_view() + split_lines(text@) =~~= split_lines(text@));
    }
    loop
        invariant
            start <= text.len(),
            split_lines(text@) == lines.deep_view() + split_lines(text@.skip(start as int)),
        decreases text.len() - start,
    {
        let ghost rem = text@.skip(start as int);
        let ghost d0 = lines.deep_view();
        let j = find_nl_from(text, start);
        proof {
            lemma_find_nl(rem);
        }
        let line = copy_range(text, start, j);
        lines.push(line);
        proof {
            assert(lines.deep_view() =~~= d0.push(line@));
        }
        if j == text.len() {
            proof {
                assert(find_nl(rem) >= rem.len());
                assert(line@ =~= rem);
                assert(split_lines(rem) == seq![rem]);
                assert(lines.deep_view() =~~= split_lines(text@));
            }
            return lines;
        } else {
            proof {
                let f = find_nl(rem);
                assert(f < rem.len());
                assert(line@ =~= rem.take(f));
                assert(rem.skip(f + 1) =~= text@.skip(j as int + 1));
                assert(split_lines(rem) == seq![rem.take(f)] + split_lines(rem.skip(f + 1)));
                assert(lines.deep_view() + split_lines(text@.skip(j as int + 1)) =~~= split_lines(
                    text@,
                ));
            }
            start = j + 1;
        }
    }
}

/// Splits one manifest line into its whitespace-separated tokens.
fn tokenize_exec(line: &Vec<char>) -> (r: Vec<Vec<char>>)
    ensures
        r.deep_view() == tokenize(line@),
{
    let mut toks: Vec<Vec<char>> = Vec::new();
    let mut pos: usize = 0;
    proof {
        assert(line@.skip(0) =~= line@);
        assert(toks.deep_view() + tokenize(line@) =~~= tokenize(line@));
    }
    while pos < line.len()
        invariant
            pos <= line.len(),
            tokenize(line@) == toks.deep_view() + tokenize(line@.skip(pos as int)),
        decreases line.len() - pos,
    {
        let ghost rem = line@.skip(pos as int);
        let c = line[pos];
        if c == ' ' || c == '\t' || c == '\r' {
            proof {
                assert(is_space(rem[0]));
                assert(rem.skip(1) =~= line@.skip(pos as int + 1));
                assert(tokenize(rem) == tokenize(rem.skip(1)));
            }
            pos += 1;
        } else {
            let ghost d0 = toks.deep_view();
            let j = find_sp_from(line, pos);
            proof {
                lemma_find_sp(rem);
                assert(!is_space(rem[0]));
                assert(find_sp(rem) >= 1);
            }
            let tok = copy_range(line, pos, j);
            toks.push(tok);
            proof {
                let f = find_sp(rem);
                assert(toks.deep_view() =~~= d0.push(tok@));
                assert(tok@ =~= rem.take(f));
                assert(rem.skip(f) =~= line@.skip(j as int));
                assert(tokenize(rem) == seq![rem.take(f)] + tokenize(rem.skip(f)));
                assert(toks.deep_view() + tokenize(line@.skip(j as int)) =~~= tokenize(line@));
            }
            pos = j;
        }
    }
    proof {
        assert(tokenize(line@.skip(pos as int)) =~~= Seq::<Seq<char>>::empty());
        assert(toks.deep_view() =~~= tokenize(line@));
    }
    toks
}

impl CodeOwners {
    /// Parses a whole manifest text into its ordered rules. Parsing is
    /// total: comment lines and lines with fewer than two tokens are
    /// dropped, everything else becomes a rule in declaration order.
    pub fn parse(text: &str) -> (r: CodeOwners)
        ensures
            r@ == parse_model(text@),
    {
        let cs = chars_of(text);
        let lines = split_lines_exec(&cs);
        let ghost lds = lines.deep_view();
        let mut entries: Vec<Entry> = Vec::new();
        let mut i: usize = 0;
        proof {
            assert(lds.skip(0) =~~= lds);
            assert(entries_model(entries@) + rules_of(lds) =~~= rules_of(lds));
        }
        while i < lines.len()
            invariant
                i <= lines.len(),
                lds == lines.deep_view(),
                lds == split_lines(text@),
                parse_model(text@) == entries_model(entries@) + rules_of(lds.skip(i as int)),
            decreases lines.len() - i,
        {
            let ghost line_model = lds[i as int];
            proof {
                assert(line_model == lines@[i as int].deep_view());
                assert(lines@[i as int].deep_view() =~= lines@[i as int]@);
                assert(lds.skip(i as int)[0] == line_model);
                assert(lds.skip(i as int).skip(1) =~~= lds.skip(i as int + 1));
                lemma_tokens_nonempty(line_model);
            }
            let toks = tokenize_exec(&lines[i]);
            if toks.len() >= 2 {
                proof {
                    assert(toks.deep_view()[0] == toks@[0].deep_view());
                    assert(toks@[0].deep_view() =~= toks@[0]@);
                    assert(tokenize(line_model)[0].len() > 0);
                }
                let first = &toks[0];
                if first[0] != '#' {
                    let path = string_of(first);
                    let mut owners: Vec<String> = Vec::new();
                    let mut j: usize = 1;
                    proof {
                        assert(owners.deep_view() =~~= toks.deep_view().subrange(1, 1));
                    }
                    while j < toks.len()
                        invariant
                            1 <= j <= toks.len(),
                            toks.deep_view() == tokenize(line_model),
                            owners.deep_view() == toks.deep_view().subrange(1, j as int),
                        decreases toks.len() - j,
                    {
                        let ghost d0 = owners.deep_view();
                        proof {
                            assert(toks.deep_view()[j as int] == toks@[j as int].deep_view());
                            assert(toks@[j as int].deep_view() =~= toks@[j as int]@);
                        }
                        owners.push(string_of(&toks[j]));
                        proof {
                            assert(owners.deep_view() =~~= d0.push(toks@[j as int]@));
                            assert(owners.deep_view() =~~= toks.deep_view().subrange(
                                1,
                                j as int + 1,
                            ));
                        }
                        j += 1;
                    }
                    proof {
                        assert(toks.deep_view().subrange(1, toks.deep_view().len() as int)
                            =~~= toks.deep_view().skip(1));
                    }
                    let entry = Entry { path, owners };
                    let ghost e0 = entries_model(entries@);
                    proof {
                        assert(line_rule(line_model) == Some(
                            (toks.deep_view()[0], toks.deep_view().skip(1)),
                        ));
                        assert(entry@ == (toks.deep_view()[0], toks.deep_view().skip(1)));
                    }
                    entries.push(entry);
                    proof {
                        assert(entries_model(entries@) =~~= e0.push(entry@));
                        assert(rules_of(lds.skip(i as int)) == seq![entry@] + rules_of(
                            lds.skip(i as int + 1),
                        ));
                        assert(entries_model(entries@) + rules_of(lds.skip(i as int + 1)) =~~= e0
                            + rules_of(lds.skip(i as int)));
                    }
                } else {
                    proof {
                        assert(tokenize(line_model)[0][0] == '#');
                        assert(line_rule(line_model) is None);
                    }
                }
            } else {
                proof {
                    assert(tokenize(line_model).len() < 2);
                    assert(line_rule(line_model) is None);
                }
            }
            i += 1;
        }
        proof {
            assert(lds.skip(i as int) =~~= Seq::<Seq<char>>::empty());
            assert(rules_of(lds.skip(i as int)) == Seq::<(Seq<char>, Seq<Seq<char>>)>::empty());
            assert(entries_model(entries@) =~~= parse_model(text@));
        }
        CodeOwners { entries }
    }
}

} // verus!
