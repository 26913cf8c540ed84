//! The denylist-entry grammar and the parser that turns denylist text into a
//! structured [`Lists`] value.
//!
//! An entry line is either a bare package name, which matches every version
//! of that package, or `name@version` / `@scope/name@version`, which matches
//! one exact version. Blank lines and `#` comments are ignored; the first
//! malformed line aborts the whole parse with a line-numbered error.
use vstd::prelude::*;

use crate::text::split_lines;
use crate::text::split_lines_str;
use crate::text::trim;
use crate::text::trim_str;

verus! {

/// Why an entry line was rejected.
#[derive(Clone, Copy, Debug, PartialEq, Eq, Structural)]
pub enum InvalidReason {
    /// An unscoped entry holds more than one `@`.
    TooManyAt,
    /// The part before the version separator is empty.
    EmptyName,
    /// The part after the version separator is empty.
    EmptyVersion,
    /// The version part holds a `/`.
    VersionContainsSlash,
    /// The version part does not start with an ASCII alphanumeric character.
    VersionNotAlnum,
}

/// One classified denylist line.
#[derive(Clone, Debug, PartialEq, Eq)]
pub enum CompEntry {
    /// A bare name: matches any version of the package.
    Name(String),
    /// An exact identity: matches only this version of the package.
    Exact { name: String, version: String },
    /// A malformed line, with the reason it was rejected.
    Invalid(InvalidReason),
}

/// The mathematical value of a [`CompEntry`].
pub enum EntryModel {
    Name(Seq<char>),
    Exact(Seq<char>, Seq<char>),
    Invalid(InvalidReason),
}

impl View for CompEntry {
    type V = EntryModel;

    open spec fn view(&self) -> EntryModel {
        match self {
            CompEntry::Name(n) => EntryModel::Name(n@),
            CompEntry::Exact { name, version } => EntryModel::Exact(name@, version@),
            CompEntry::Invalid(r) => EntryModel::Invalid(*r),
        }
    }
}

/// Whether `c` occurs in `s`.
pub open spec fn has_char(s: Seq<char>, c: char) -> bool {
    exists|i: int| 0 <= i < s.len() && s[i] == c
}

/// How many times `c` occurs in `s`.
pub open spec fn count_char(s: Seq<char>, c: char) -> nat
    decreases s.len(),
{
    if s.len() == 0 {
        0
    } else {
        count_char(s.drop_last(), c) + (if s[s.len() - 1] == c {
            1nat
        } else {
            0nat
        })
    }
}

/// The largest index at which `c` occurs in `s`, or `-1` if it does not.
pub open spec fn last_index_of(s: Seq<char>, c: char) -> int
    decreases s.len(),
{
    if s.len() == 0 {
        -1
    } else if s[s.len() - 1] == c {
        s.len() - 1
    } else {
        last_index_of(s.drop_last(), c)
    }
}

/// An ASCII alphanumeric character: a digit or a letter.
pub open spec fn is_alnum(c: char) -> bool {
    (48 <= c as u32 <= 57) || (65 <= c as u32 <= 90) || (97 <= c as u32 <= 122)
}

/// Runtime test for [`is_alnum`].
pub fn is_alnum_char(c: char) -> (r: bool)
    ensures
        r == is_alnum(c),
{
    let u = c as u32;
    (48 <= u && u <= 57) || (65 <= u && u <= 90) || (97 <= u && u <= 122)
}

/// The entry grammar: how one trimmed, non-comment line is classified.
///
/// A line with no `@` is a bare name. A line starting with `@` is a scoped
/// package: with a single `@` it is still a bare name, with two or more the
/// text after the last `@` is its version. An unscoped line with one `@` is
/// an exact candidate, with more it is invalid. An exact candidate's version
/// must be non-empty, free of `/`, and start with an ASCII alphanumeric.
pub open spec fn spec_parse_entry(s: Seq<char>) -> EntryModel {
    if !has_char(s, '@') {
        EntryModel::Name(s)
    } else if s[0] == '@' && count_char(s, '@') < 2 {
        EntryModel::Name(s)
    } else if s[0] != '@' && count_char(s, '@') > 1 {
        EntryModel::Invalid(InvalidReason::TooManyAt)
    } else {
        let k = last_index_of(s, '@');
        let name = s.subrange(0, k);
        let version = s.subrange(k + 1, s.len() as int);
        if name.len() == 0 {
            EntryModel::Invalid(InvalidReason::EmptyName)
        } else if version.len() == 0 {
            EntryModel::Invalid(InvalidReason::EmptyVersion)
        } else if has_char(version, '/') {
            EntryModel::Invalid(InvalidReason::VersionContainsSlash)
        } else if !is_alnum(version[0]) {
            EntryModel::Invalid(InvalidReason::VersionNotAlnum)
        } else {
            EntryModel::Exact(name, version)
        }
    }
}

proof fn lemma_count_char_prefix(s: Seq<char>, c: char, i: int)
    requires
        0 <= i < s.len(),
    ensures
        count_char(s.subrange(0, i + 1), c) == count_char(s.subrange(0, i), c) + (if s[i] == c {
            1nat
        } else {
            0nat
        }),
{
    let p = s.subrange(0, i + 1);
    assert(p.drop_last() =~= s.subrange(0, i));
    assert(p[p.len() - 1] == s[i]);
}

proof fn lemma_last_index_from_scan(s: Seq<char>, c: char, j: int)
    requires
        0 <= j < s.len(),
        s[j] == c,
        forall|k: int| j < k < s.len() ==> s[k] != c,
    ensures
        last_index_of(s, c) == j,
    decreases s.len(),
{
    if s.len() - 1 == j {
    } else {
        assert(s[s.len() - 1] != c);
        let t = s.drop_last();
        lemma_last_index_from_scan(t, c, j);
    }
}

proof fn lemma_no_char_scan(s: Seq<char>, c: char)
    requires
        forall|k: int| 0 <= k < s.len() ==> s[k] != c,
    ensures
        count_char(s, c) == 0,
        !has_char(s, c),
    decreases s.len(),
{
    if s.len() > 0 {
        lemma_no_char_scan(s.drop_last(), c);
    }
}

proof fn lemma_count_char_has_char(s: Seq<char>, c: char)
    ensures
        has_char(s, c) <==> count_char(s, c) > 0,
    decreases s.len(),
{
    if s.len() == 0 {
    } else {
        let t = s.drop_last();
        lemma_count_char_has_char(t, c);
        if has_char(t, c) {
            let i = choose|i: int| 0 <= i < t.len() && t[i] == c;
            assert(s[i] == c);
        }
        if s[s.len() - 1] == c {
            assert(has_char(s, c));
        }
        if has_char(s, c) && s[s.len() - 1] != c {
            let i = choose|i: int| 0 <= i < s.len() && s[i] == c;
            assert(t[i] == c);
        }
    }
}

/// Scan `line` once, reporting how many `c` it holds and the position of the
/// last occurrence.
fn scan_char(line: &str, c: char) -> (r: (usize, usize, bool))
    ensures
        r.0 as nat == count_char(line@, c),
        r.2 == has_char(line@, c),
        r.2 ==> r.1 < line@.len() && line@[r.1 as int] == c && last_index_of(line@, c)
            == r.1 as int,
{
    let n: usize = line.unicode_len();
    let mut count: usize = 0;
    let mut last: usize = 0;
    let mut found = false;
    let mut i: usize = 0;
    proof {
        assert(line@.subrange(0, 0) =~= Seq::<char>::empty());
    }
    while i < n
        invariant
            0 <= i <= n,
            n == line@.len(),
            count as nat == count_char(line@.subrange(0, i as int), c),
            count as nat <= i as nat,
            found ==> last < i && line@[last as int] == c && (forall|k: int|
                last < k < i ==> line@[k] != c),
            !found ==> (forall|k: int| 0 <= k < i ==> line@[k] != c),
        decreases n - i,
    {
        proof {
            lemma_count_char_prefix(line@, c, i as int);
        }
        if line.get_char(i) == c {
            count = count + 1;
            last = i;
            found = true;
        }
        i = i + 1;
    }
    proof {
        assert(line@.subrange(0, n as int) =~= line@);
        if found {
            lemma_last_index_from_scan(line@, c, last as int);
        } else {
            lemma_no_char_scan(line@, c);
        }
        lemma_count_char_has_char(line@, c);
    }
    (count, last, found)
}

/// Classify one already-trimmed denylist line by the entry grammar.
pub fn parse_compromised_entry(line: &str) -> (r: CompEntry)
    ensures
        r@ == spec_parse_entry(line@),
{
    let (at_count, last_at, has_at) = scan_char(line, '@');
    if !has_at {
        return CompEntry::Name(line.to_owned());
    }
    let n: usize = line.unicode_len();
    let starts_at = line.get_char(0) == '@';
    if starts_at && at_count < 2 {
        return CompEntry::Name(line.to_owned());
    }
    if !starts_at && at_count > 1 {
        return CompEntry::Invalid(InvalidReason::TooManyAt);
    }
    let name_part = line.substring_char(0, last_at);
    let version_part = line.substring_char(last_at + 1, n);
    if last_at == 0 {
        proof {
            assert(line@.subrange(0, 0).len() == 0);
        }
        return CompEntry::Invalid(InvalidReason::EmptyName);
    }
    if last_at + 1 == n {
        return CompEntry::Invalid(InvalidReason::EmptyVersion);
    }
    let (_slash_count, _slash_last, has_slash) = scan_char(version_part, '/');
    if has_slash {
        return CompEntry::Invalid(InvalidReason::VersionContainsSlash);
    }
    if !is_alnum_char(version_part.get_char(0)) {
        return CompEntry::Invalid(InvalidReason::VersionNotAlnum);
    }
    CompEntry::Exact { name: name_part.to_owned(), version: version_part.to_owned() }
}

/// Law: a line holding no `@` anywhere is classified as a bare-name entry
/// equal to the trimmed line.
pub proof fn lemma_no_at_parses_as_name(line: Seq<char>)
    requires
        forall|k: int| 0 <= k < line.len() ==> line[k] != '@',
    ensures
        spec_parse_entry(trim(line)) == EntryModel::Name(trim(line)),
{
    crate::text::lemma_trim_keeps_absence(line, '@');
    lemma_no_char_scan(trim(line), '@');
}

/// The parsed denylist: exact `(name, version)` pairs and bare names.
///
/// Every name that appears in an exact pair is also present in `names`, so
/// an exact entry always implies a name entry (see [`Lists::wf`]).
#[derive(Debug)]
pub struct Lists {
    /// The `(name, version)` identities denylisted exactly.
    pub exact: Vec<(String, String)>,
    /// The package names denylisted at any version.
    pub names: Vec<String>,
}

/// The mathematical value of a [`Lists`]: two sets of identities.
pub struct ListsModel {
    pub names: Set<Seq<char>>,
    pub exact: Set<(Seq<char>, Seq<char>)>,
}

/// Whether `n` is one of the denylisted bare names of `l`.
pub open spec fn lists_has_name(l: Lists, n: Seq<char>) -> bool {
    exists|i: int| 0 <= i < l.names@.len() && l.names@[i]@ == n
}

/// Whether `(n, v)` is one of the exactly denylisted identities of `l`.
pub open spec fn lists_has_exact(l: Lists, n: Seq<char>, v: Seq<char>) -> bool {
    exists|i: int| 0 <= i < l.exact@.len() && l.exact@[i].0@ == n && l.exact@[i].1@ == v
}

impl View for Lists {
    type V = ListsModel;

    open spec fn view(&self) -> ListsModel {
        ListsModel {
            names: Set::new(|n: Seq<char>| lists_has_name(*self, n)),
            exact: Set::new(|p: (Seq<char>, Seq<char>)| lists_has_exact(*self, p.0, p.1)),
        }
    }
}

impl Lists {
    /// Well-formed: no duplicate names, no duplicate exact pairs, and the
    /// name of every exact pair is also registered as a bare name.
    pub open spec fn wf(self) -> bool {
        &&& forall|i: int, j: int|
            0 <= i < j < self.names@.len() ==> (#[trigger] self.names@[i])@ != (
            #[trigger] self.names@[j])@
        &&& forall|i: int, j: int|
            0 <= i < j < self.exact@.len() ==> !((#[trigger] self.exact@[i]).0@ == (
            #[trigger] self.exact@[j]).0@ && self.exact@[i].1@ == self.exact@[j].1@)
        &&& forall|i: int|
            0 <= i < self.exact@.len() ==> lists_has_name(self, (#[trigger] self.exact@[i]).0@)
    }

    /// An empty denylist.
    pub fn new() -> (r: Lists)
        ensures
            r.wf(),
            r@.names =~= Set::<Seq<char>>::empty(),
            r@.exact =~= Set::<(Seq<char>, Seq<char>)>::empty(),
    {
        Lists { exact: Vec::new(), names: Vec::new() }
    }

    /// Whether `n` is registered as a bare name.
    pub fn contains_name(&self, n: &String) -> (r: bool)
        ensures
            r == self@.names.contains(n@),
    {
        let mut i: usize = 0;
        while i < self.names.len()
            invariant
                0 <= i <= self.names@.len(),
                forall|k: int| 0 <= k < i ==> (#[trigger] self.names@[k])@ != n@,
            decreases self.names@.len() - i,
        {
            if self.names[i] == *n {
                return true;
            }
            i = i + 1;
        }
        false
    }

    /// Whether `(n, v)` is registered as an exact identity.
    pub fn contains_exact(&self, n: &String, v: &String) -> (r: bool)
        ensures
            r == self@.exact.contains((n@, v@)),
    {
        let mut i: usize = 0;
        while i < self.exact.len()
            invariant
                0 <= i <= self.exact@.len(),
                forall|k: int|
                    0 <= k < i ==> !((#[trigger] self.exact@[k]).0@ == n@ && self.exact@[k].1@
                        == v@),
            decreases self.exact@.len() - i,
        {
            if self.exact[i].0 == *n && self.exact[i].1 == *v {
                return true;
            }
            i = i + 1;
        }
        false
    }

    /// Register a bare name, keeping the name list duplicate-free.
    fn insert_name(&mut self, n: String)
        requires
            old(self).wf(),
        ensures
            final(self).wf(),
            final(self)@.names =~= old(self)@.names.insert(n@),
            final(self)@.exact =~= old(self)@.exact,
            final(self).exact == old(self).exact,
    {
        let present = self.contains_name(&n);
        if !present {
            proof {
                assert(!lists_has_name(*self, n@));
            }
            self.names.push(n);
            proof {
                let prev = old(self).names@;
                let now = self.names@;
                assert(now == prev.push(n));
                assert(now[prev.len() as int]@ == n@);
                assert forall|m: Seq<char>| #[trigger]
                    old(self)@.names.insert(n@).contains(m) implies lists_has_name(
                    *self,
                    m,
                ) by {
                    if m == n@ {
                        assert(now[prev.len() as int]@ == m);
                    } else {
                        let i = choose|i: int| 0 <= i < prev.len() && prev[i]@ == m;
                        assert(now[i]@ == m);
                    }
                }
                assert forall|m: Seq<char>| lists_has_name(*self, m) implies old(
                    self,
                )@.names.insert(n@).contains(m) by {
                    let i = choose|i: int| 0 <= i < now.len() && now[i]@ == m;
                    if i < prev.len() {
                        assert(prev[i]@ == m);
                    } else {
                        assert(m == n@);
                    }
                }
                assert forall|i: int| 0 <= i < self.exact@.len() implies lists_has_name(
                    *self,
                    (#[trigger] self.exact@[i]).0@,
                ) by {
                    assert(lists_has_name(*old(self), self.exact@[i].0@));
                    let j = choose|j: int|
                        0 <= j < prev.len() && prev[j]@ == self.exact@[i].0@;
                    assert(now[j]@ == self.exact@[i].0@);
                }
            }
        } else {
            proof {
                assert(lists_has_name(*self, n@));
                assert(old(self)@.names.insert(n@) =~= old(self)@.names);
            }
        }
    }

    /// Register an exact identity and its name, preserving well-formedness.
    fn insert_exact(&mut self, n: String, v: String)
        requires
            old(self).wf(),
        ensures
            final(self).wf(),
            final(self)@.names =~= old(self)@.names.insert(n@),
            final(self)@.exact =~= old(self)@.exact.insert((n@, v@)),
    {
        let name_copy = n.clone();
        self.insert_name(name_copy);
        let present = self.contains_exact(&n, &v);
        if !present {
            let ghost before = *self;
            proof {
                assert(!lists_has_exact(before, n@, v@));
            }
            self.exact.push((n, v));
            proof {
                let prev = before.exact@;
                let now = self.exact@;
                assert(now == prev.push((n, v)));
                assert(self.names@ == before.names@);
                assert forall|m: Seq<char>| lists_has_name(before, m) implies lists_has_name(
                    *self,
                    m,
                ) by {
                    let i = choose|i: int| 0 <= i < before.names@.len() && before.names@[i]@ == m;
                    assert(self.names@[i]@ == m);
                }
                assert forall|m: Seq<char>| lists_has_name(*self, m) implies lists_has_name(
                    before,
                    m,
                ) by {
                    let i = choose|i: int| 0 <= i < self.names@.len() && self.names@[i]@ == m;
                    assert(before.names@[i]@ == m);
                }
                assert(now[prev.len() as int].0@ == n@ && now[prev.len() as int].1@ == v@);
                assert forall|p: (Seq<char>, Seq<char>)| #[trigger]
                    before@.exact.insert((n@, v@)).contains(p) implies lists_has_exact(
                    *self,
                    p.0,
                    p.1,
                ) by {
                    if p == (n@, v@) {
                        assert(now[prev.len() as int].0@ == p.0);
                    } else {
                        let i = choose|i: int|
                            0 <= i < prev.len() && prev[i].0@ == p.0 && prev[i].1@ == p.1;
                        assert(now[i].0@ == p.0 && now[i].1@ == p.1);
                    }
                }
                assert forall|p: (Seq<char>, Seq<char>)| lists_has_exact(
                    *self,
                    p.0,
                    p.1,
                ) implies before@.exact.insert((n@, v@)).contains(p) by {
                    let i = choose|i: int|
                        0 <= i < now.len() && now[i].0@ == p.0 && now[i].1@ == p.1;
                    if i < prev.len() {
                        assert(prev[i].0@ == p.0 && prev[i].1@ == p.1);
                    } else {
                        assert(p.0 == n@ && p.1 == v@);
                        assert(p =~= (n@, v@));
                    }
                }
                assert(before@.names.contains(n@));
                assert(lists_has_name(before, n@));
                assert(lists_has_name(*self, n@));
                assert forall|i: int| 0 <= i < now.len() implies lists_has_name(
                    *self,
                    (#[trigger] now[i]).0@,
                ) by {
                    if i < prev.len() {
                        assert(lists_has_name(before, prev[i].0@));
                    } else {
                        assert(now[i].0@ == n@);
                    }
                }
                assert forall|i: int, j: int| 0 <= i < j < now.len() implies !((
                #[trigger] now[i]).0@ == (#[trigger] now[j]).0@ && now[i].1@ == now[j].1@) by {
                    if j == prev.len() {
                        if now[i].0@ == n@ && now[i].1@ == v@ {
                            assert(lists_has_exact(before, n@, v@));
                        }
                    }
                }
            }
        } else {
            proof {
                assert(lists_has_exact(*self, n@, v@));
                assert(self@.exact.insert((n@, v@)) =~= self@.exact);
                assert(old(self)@.exact =~= self@.exact);
            }
        }
    }
}

/// Law: in a well-formed denylist, every exactly denylisted identity's name
/// is also a denylisted bare name, so an exact entry always implies a name
/// entry.
pub proof fn lemma_exact_implies_name(l: Lists)
    requires
        l.wf(),
    ensures
        forall|p: (Seq<char>, Seq<char>)| l@.exact.contains(p) ==> l@.names.contains(p.0),
{
    assert forall|p: (Seq<char>, Seq<char>)| l@.exact.contains(p) implies l@.names.contains(
        p.0,
    ) by {
        let i = choose|i: int|
            0 <= i < l.exact@.len() && l.exact@[i].0@ == p.0 && l.exact@[i].1@ == p.1;
        assert(lists_has_name(l, l.exact@[i].0@));
    }
}

/// The error a malformed denylist line raises: the 1-based line number, the
/// offending line's trimmed text, and the reason it was rejected.
#[derive(Clone, Debug, PartialEq, Eq)]
pub struct ParseError {
    pub line_number: usize,
    pub line: String,
    pub reason: InvalidReason,
}

/// The mathematical value of a [`ParseError`].
pub struct ErrModel {
    pub line: int,
    pub text: Seq<char>,
    pub reason: InvalidReason,
}

impl InvalidReason {
    /// The diagnostic text for this reason.
    pub fn text(&self) -> (r: String)
        ensures
            *self == InvalidReason::TooManyAt ==> r@
                == "Too many @ characters for unscoped package"@,
            *self == InvalidReason::EmptyName ==> r@ == "Empty name part"@,
            *self == InvalidReason::EmptyVersion ==> r@ == "Empty version part"@,
            *self == InvalidReason::VersionContainsSlash ==> r@ == "Version contains '/'"@,
            *self == InvalidReason::VersionNotAlnum ==> r@
                == "Version does not start with alphanumeric"@,
    {
        match self {
            InvalidReason::TooManyAt => "Too many @ characters for unscoped package".to_owned(),
            InvalidReason::EmptyName => "Empty name part".to_owned(),
            InvalidReason::EmptyVersion => "Empty version part".to_owned(),
            InvalidReason::VersionContainsSlash => "Version contains '/'".to_owned(),
            InvalidReason::VersionNotAlnum => "Version does not start with alphanumeric".to_owned(),
        }
    }
}

/// Whether a trimmed line is skipped: blank, or a `#` comment.
pub open spec fn is_skipped(t: Seq<char>) -> bool {
    t.len() == 0 || t[0] == '#'
}

/// What parsing the lines of a denylist from line `i` onward yields: either
/// the sets of names and exact pairs registered by the remaining lines, or
/// the first malformed line's error. Lines are trimmed; blank lines and `#`
/// comments are skipped; parsing stops at the first invalid entry.
pub open spec fn spec_parse_lines(lines: Seq<Seq<char>>, i: int) -> Result<ListsModel, ErrModel>
    decreases lines.len() - i,
{
    if i < 0 || i >= lines.len() {
        Ok(ListsModel { names: Set::empty(), exact: Set::empty() })
    } else {
        let t = trim(lines[i]);
        if is_skipped(t) {
            spec_parse_lines(lines, i + 1)
        } else {
            match spec_parse_entry(t) {
                EntryModel::Name(n) => match spec_parse_lines(lines, i + 1) {
                    Ok(m) => Ok(ListsModel { names: m.names.insert(n), exact: m.exact }),
                    Err(e) => Err(e),
                },
                EntryModel::Exact(n, v) => match spec_parse_lines(lines, i + 1) {
                    Ok(m) => Ok(
                        ListsModel { names: m.names.insert(n), exact: m.exact.insert((n, v)) },
                    ),
                    Err(e) => Err(e),
                },
                EntryModel::Invalid(r) => Err(ErrModel { line: i + 1, text: t, reason: r }),
            }
        }
    }
}

/// What parsing a whole denylist text yields.
pub open spec fn spec_parse_text(s: Seq<char>) -> Result<ListsModel, ErrModel> {
    spec_parse_lines(split_lines(s), 0)
}

/// `o` with the already-registered sets `m` joined in.
pub open spec fn outcome_with(m: ListsModel, o: Result<ListsModel, ErrModel>) -> Result<
    ListsModel,
    ErrModel,
> {
    match o {
        Ok(m2) => Ok(
            ListsModel { names: m.names.union(m2.names), exact: m.exact.union(m2.exact) },
        ),
        Err(e) => Err(e),
    }
}

/// Parse denylist text into a [`Lists`] value, or report the first malformed
/// line. The result is exactly what [`spec_parse_text`] yields of the text.
pub fn parse_compromised_text(text: &str) -> (r: Result<Lists, ParseError>)
    ensures
        match r {
            Ok(l) => l.wf() && spec_parse_text(text@) == Ok::<ListsModel, ErrModel>(l@),
            Err(e) => spec_parse_text(text@) == Err::<ListsModel, ErrModel>(
                ErrModel { line: e.line_number as int, text: e.line@, reason: e.reason },
            ),
        },
{
    let lines = split_lines_str(text);
    let ghost gl = split_lines(text@);
    let mut lists = Lists::new();
    let mut idx: usize = 0;
    proof {
        match spec_parse_lines(gl, 0) {
            Ok(m2) => {
                assert(lists@.names.union(m2.names) =~= m2.names);
                assert(lists@.exact.union(m2.exact) =~= m2.exact);
            },
            Err(e) => {},
        }
    }
    while idx < lines.len()
        invariant
            0 <= idx <= lines@.len(),
            gl == split_lines(text@),
            lines@.map_values(|t: String| t@) == gl,
            lists.wf(),
            spec_parse_lines(gl, 0) == outcome_with(lists@, spec_parse_lines(gl, idx as int)),
        decreases lines@.len() - idx,
    {
        let line = trim_str(lines[idx].as_str());
        let ghost t = trim(gl[idx as int]);
        proof {
            assert(gl[idx as int] == lines@[idx as int]@);
            assert(line@ == t);
        }
        let skipped = line.unicode_len() == 0 || line.get_char(0) == '#';
        if !skipped {
            let ghost before = lists@;
            match parse_compromised_entry(line) {
                CompEntry::Name(nm) => {
                    proof {
                        assert(spec_parse_entry(t) == EntryModel::Name(nm@));
                    }
                    lists.insert_name(nm);
                    proof {
                        match spec_parse_lines(gl, idx + 1) {
                            Ok(m) => {
                                let n = nm@;
                                assert(before.names.union(m.names.insert(n)) =~= before.names.insert(
                                    n,
                                ).union(m.names));
                                assert(before.exact.union(m.exact) =~= lists@.exact.union(m.exact));
                                assert(lists@.names =~= before.names.insert(n));
                            },
                            Err(e) => {},
                        }
                    }
                },
                CompEntry::Exact { name, version } => {
                    proof {
                        assert(spec_parse_entry(t) == EntryModel::Exact(name@, version@));
                    }
                    let ghost n = name@;
                    let ghost v = version@;
                    lists.insert_exact(name, version);
                    proof {
                        match spec_parse_lines(gl, idx + 1) {
                            Ok(m) => {
                                assert(before.names.union(m.names.insert(n)) =~= before.names.insert(
                                    n,
                                ).union(m.names));
                                assert(before.exact.union(m.exact.insert((n, v)))
                                    =~= before.exact.insert((n, v)).union(m.exact));
                                assert(lists@.names =~= before.names.insert(n));
                                assert(lists@.exact =~= before.exact.insert((n, v)));
                            },
                            Err(e) => {},
                        }
                    }
                },
                CompEntry::Invalid(reason) => {
                    proof {
                        assert(spec_parse_lines(gl, idx as int) == Err::<ListsModel, ErrModel>(
                            ErrModel { line: idx + 1, text: t, reason },
                        ));
                    }
                    return Err(
                        ParseError { line_number: idx + 1, line: line.to_owned(), reason },
                    );
                },
            }
        }
        idx = idx + 1;
    }
    proof {
        assert(spec_parse_lines(gl, idx as int) == Ok::<ListsModel, ErrModel>(
            ListsModel { names: Set::empty(), exact: Set::empty() },
        ));
        assert(lists@.names.union(Set::empty()) =~= lists@.names);
        assert(lists@.exact.union(Set::empty()) =~= lists@.exact);
    }
    Ok(lists)
}

} // verus!

