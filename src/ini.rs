//! INI-style configuration: section headers and `key=value` properties, one
//! per line.
//!
//! ```text
//! file           := line ('\n' line)*
//! line           := blank | section_header | property   (tried in this order)
//! blank          := white_space*      (Unicode White_Space)
//! section_header := '[' name ']'     (name: no ']')
//! property       := key '=' value      (key: the text before the first '=')
//! ```
//!
//! Parsing happens in two steps: each line is classified on its own
//! ([`lex`]), then the classified lines are folded into sections
//! ([`assemble`]).
use vstd::prelude::*;
use crate::error::SyntaxError;
use crate::text::{chars_of, string_of};

verus! {

/// One key/value pair, as plain text.
pub type PropertyView = (Seq<char>, Seq<char>);

/// A section: its name and its properties, in the order their keys first
/// appeared.
pub type SectionView = (Seq<char>, Seq<PropertyView>);

/// What one line of text is.
pub enum LineView {
    Blank,
    Header(Seq<char>),
    Property(Seq<char>, Seq<char>),
}

/// The first index at or after `i` that holds `c`, or `i` itself where `i`
/// lies outside `s`.
pub open spec fn find_char(s: Seq<char>, c: char, i: int) -> int
    decreases s.len() - i,
{
    if 0 <= i < s.len() && s[i] != c {
        find_char(s, c, i + 1)
    } else {
        i
    }
}

pub proof fn lemma_find_char_bounds(s: Seq<char>, c: char, i: int)
    ensures
        i <= find_char(s, c, i),
        0 <= i <= s.len() ==> find_char(s, c, i) <= s.len(),
        0 <= i <= s.len() && find_char(s, c, i) < s.len() ==> s[find_char(s, c, i)] == c,
    decreases s.len() - i,
{
    if 0 <= i < s.len() && s[i] != c {
        lemma_find_char_bounds(s, c, i + 1);
    }
}

/// The characters of Unicode's White_Space property.
pub open spec fn is_blank_char(c: char) -> bool {
    ||| '\u{9}' <= c && c <= '\u{d}'
    ||| c == ' '
    ||| c == '\u{85}'
    ||| c == '\u{a0}'
    ||| c == '\u{1680}'
    ||| '\u{2000}' <= c && c <= '\u{200a}'
    ||| c == '\u{2028}'
    ||| c == '\u{2029}'
    ||| c == '\u{202f}'
    ||| c == '\u{205f}'
    ||| c == '\u{3000}'
}

fn blank_char(c: char) -> (r: bool)
    ensures
        r == is_blank_char(c),
{
    ('\u{9}' <= c && c <= '\u{d}') || c == ' ' || c == '\u{85}' || c == '\u{a0}' || c
        == '\u{1680}' || ('\u{2000}' <= c && c <= '\u{200a}') || c == '\u{2028}' || c
        == '\u{2029}' || c == '\u{202f}' || c == '\u{205f}' || c == '\u{3000}'
}

pub open spec fn is_blank(l: Seq<char>) -> bool {
    forall|j: int| 0 <= j < l.len() ==> is_blank_char(#[trigger] l[j])
}

pub open spec fn has_no(s: Seq<char>, c: char) -> bool {
    forall|m: int| 0 <= m < s.len() ==> #[trigger] s[m] != c
}

/// `l` is a section header: `[`, a name without `]`, then `]`.
pub open spec fn is_header(l: Seq<char>) -> bool {
    &&& l.len() >= 2
    &&& l[0] == '['
    &&& l[l.len() - 1] == ']'
    &&& has_no(l.subrange(1, l.len() - 1), ']')
}

/// What the line `l` (without its line break) is, or `None` where it is
/// malformed.
pub open spec fn line_kind(l: Seq<char>) -> Option<LineView> {
    if is_blank(l) {
        Some(LineView::Blank)
    } else if is_header(l) {
        Some(LineView::Header(l.subrange(1, l.len() - 1)))
    } else {
        let e = find_char(l, '=', 0);
        if e < l.len() {
            Some(LineView::Property(l.subrange(0, e), l.subrange(e + 1, l.len() as int)))
        } else {
            None
        }
    }
}

/// Goes on classifying lines at `i`, the start of a line, with the lines
/// before it classified as `acc`. An error is the start of the first
/// malformed line.
pub open spec fn scan_lines(s: Seq<char>, i: int, acc: Seq<LineView>) -> Result<
    Seq<LineView>,
    int,
>
    decreases s.len() - i,
    via scan_lines_decreases
{
    let e = find_char(s, '\n', i);
    match line_kind(s.subrange(i, e)) {
        None => Err(i),
        Some(l) => if e < s.len() {
            scan_lines(s, e + 1, acc.push(l))
        } else {
            Ok(acc.push(l))
        },
    }
}

#[via_fn]
proof fn scan_lines_decreases(s: Seq<char>, i: int, acc: Seq<LineView>) {
    lemma_find_char_bounds(s, '\n', i);
}

/// The lines of `s`, classified; or the start of the first malformed one.
pub open spec fn ini_lines(s: Seq<char>) -> Result<Seq<LineView>, int> {
    scan_lines(s, 0, seq![])
}

/// The first index at or after `i` whose key is `k`, or `p.len()`.
pub open spec fn key_pos(p: Seq<PropertyView>, k: Seq<char>, i: int) -> int
    decreases p.len() - i,
{
    if i < 0 || i >= p.len() {
        p.len() as int
    } else if p[i].0 == k {
        i
    } else {
        key_pos(p, k, i + 1)
    }
}

pub proof fn lemma_key_pos(p: Seq<PropertyView>, k: Seq<char>, i: int)
    requires
        0 <= i <= p.len(),
    ensures
        i <= key_pos(p, k, i) <= p.len(),
        key_pos(p, k, i) < p.len() ==> p[key_pos(p, k, i)].0 == k,
        forall|j: int| i <= j < key_pos(p, k, i) ==> p[j].0 != k,
    decreases p.len() - i,
{
    if i < p.len() && p[i].0 != k {
        lemma_key_pos(p, k, i + 1);
    }
}

/// The value of the key `k`, if it is present.
pub open spec fn lookup(p: Seq<PropertyView>, k: Seq<char>) -> Option<Seq<char>> {
    let j = key_pos(p, k, 0);
    if j < p.len() {
        Some(p[j].1)
    } else {
        None
    }
}

/// Sets the key `k` to `v`: a present key keeps its place and takes the new
/// value, a new one goes at the end.
pub open spec fn insert_property(p: Seq<PropertyView>, k: Seq<char>, v: Seq<char>) -> Seq<
    PropertyView,
> {
    let j = key_pos(p, k, 0);
    if j < p.len() {
        p.update(j, (k, v))
    } else {
        p.push((k, v))
    }
}

/// No key occurs twice.
pub open spec fn keys_unique(p: Seq<PropertyView>) -> bool {
    forall|a: int, b: int| 0 <= a < b < p.len() ==> #[trigger] p[a].0 != #[trigger] p[b].0
}

/// The section being filled before any header: no name, no properties.
pub open spec fn unnamed_section() -> SectionView {
    (seq![], seq![])
}

/// One step of assembly over the completed sections and the one in progress.
pub open spec fn assemble_step(st: (Seq<SectionView>, SectionView), l: LineView) -> (
    Seq<SectionView>,
    SectionView,
) {
    match l {
        LineView::Blank => st,
        LineView::Header(n) => (st.0.push(st.1), (n, seq![])),
        LineView::Property(k, v) => (st.0, (st.1.0, insert_property(st.1.1, k, v))),
    }
}

/// The state of assembly after the first `n` lines.
pub open spec fn assemble_upto(ls: Seq<LineView>, n: nat) -> (Seq<SectionView>, SectionView)
    decreases n,
{
    if n == 0 || n > ls.len() {
        (seq![], unnamed_section())
    } else {
        assemble_step(assemble_upto(ls, (n - 1) as nat), ls[n - 1])
    }
}

/// The sections that the lines `ls` make, the one in progress at the end
/// included.
pub open spec fn assemble_view(ls: Seq<LineView>) -> Seq<SectionView> {
    let st = assemble_upto(ls, ls.len());
    st.0.push(st.1)
}

/// The configuration that `s` denotes, or the start of its first malformed
/// line.
pub open spec fn ini_config(s: Seq<char>) -> Result<Seq<SectionView>, int> {
    match ini_lines(s) {
        Ok(ls) => Ok(assemble_view(ls)),
        Err(p) => Err(p),
    }
}

/// The properties of one section, keyed by name, in the order their keys
/// first appeared. Setting a key that is already present replaces its value,
/// so no key occurs twice.
pub struct Properties {
    entries: Vec<(String, String)>,
}

impl View for Properties {
    type V = Seq<PropertyView>;

    closed spec fn view(&self) -> Seq<PropertyView> {
        self.entries@.map_values(|e: (String, String)| (e.0@, e.1@))
    }
}

impl Properties {
    #[verifier::type_invariant]
    closed spec fn keys_are_unique(&self) -> bool {
        keys_unique(self@)
    }

    pub fn new() -> (r: Properties)
        ensures
            r@ == Seq::<PropertyView>::empty(),
            keys_unique(r@),
    {
        let r = Properties { entries: Vec::new() };
        assert(r@ =~= Seq::<PropertyView>::empty());
        r
    }

    /// The index of the entry with the key `key`, or the number of entries.
    fn position(&self, key: &String) -> (r: usize)
        ensures
            r == key_pos(self@, key@, 0),
    {
        let mut j: usize = 0;
        while j < self.entries.len()
            invariant
                j <= self.entries@.len(),
                self@.len() == self.entries@.len(),
                key_pos(self@, key@, j as int) == key_pos(self@, key@, 0),
            decreases self.entries@.len() - j,
        {
            if self.entries[j].0 == *key {
                return j;
            }
            j = j + 1;
        }
        j
    }

    /// Sets `key` to `value`, replacing the value of a present key.
    pub fn insert(&mut self, key: String, value: String)
        ensures
            final(self)@ == insert_property(old(self)@, key@, value@),
            keys_unique(final(self)@),
    {
        proof {
            use_type_invariant(&*self);
            lemma_insert_keeps_keys_unique(self@, key@, value@);
        }
        let j = self.position(&key);
        let ghost k = key@;
        let ghost v = value@;
        let mut taken = Properties::new();
        core::mem::swap(self, &mut taken);
        let Properties { mut entries } = taken;
        if j < entries.len() {
            entries.set(j, (key, value));
        } else {
            entries.push((key, value));
        }
        assert(entries@.map_values(|e: (String, String)| (e.0@, e.1@)) =~= insert_property(
            old(self)@,
            k,
            v,
        ));
        *self = Properties { entries };
    }

    /// The value of `key`, if it is present.
    pub fn get(&self, key: &String) -> (r: Option<&String>)
        ensures
            match r {
                Some(v) => lookup(self@, key@) == Some(v@),
                None => lookup(self@, key@) is None,
            },
    {
        let j = self.position(key);
        if j < self.entries.len() {
            Some(&self.entries[j].1)
        } else {
            None
        }
    }

    /// The key and the value of the `i`-th entry.
    pub fn entry(&self, i: usize) -> (r: (&String, &String))
        requires
            i < self@.len(),
        ensures
            (r.0@, r.1@) == self@[i as int],
    {
        let e = &self.entries[i];
        (&e.0, &e.1)
    }

    /// The number of keys; no key occurs twice.
    pub fn len(&self) -> (r: usize)
        ensures
            r == self@.len(),
            keys_unique(self@),
    {
        proof {
            use_type_invariant(self);
        }
        self.entries.len()
    }

    pub fn is_empty(&self) -> (r: bool)
        ensures
            r == (self@.len() == 0),
    {
        self.entries.len() == 0
    }
}

/// A named group of properties.
pub struct Section {
    pub name: String,
    pub values: Properties,
}

impl View for Section {
    type V = SectionView;

    open spec fn view(&self) -> SectionView {
        (self.name@, self.values@)
    }
}

/// The sections of a configuration, in the order of their headers, after the
/// unnamed one that holds the properties before the first header.
pub struct Config {
    pub sections: Vec<Section>,
}

impl View for Config {
    type V = Seq<SectionView>;

    open spec fn view(&self) -> Seq<SectionView> {
        sections_view(self.sections@)
    }
}

pub open spec fn sections_view(v: Seq<Section>) -> Seq<SectionView> {
    v.map_values(|x: Section| x@)
}

/// One classified line.
pub enum Line {
    Blank,
    Header(String),
    Property(String, String),
}

impl View for Line {
    type V = LineView;

    open spec fn view(&self) -> LineView {
        match self {
            Line::Blank => LineView::Blank,
            Line::Header(n) => LineView::Header(n@),
            Line::Property(k, v) => LineView::Property(k@, v@),
        }
    }
}

pub open spec fn lines_view(v: Seq<Line>) -> Seq<LineView> {
    v.map_values(|l: Line| l@)
}

/// `cs[from..to]` holds no `c`.
fn lacks(cs: &Vec<char>, from: usize, to: usize, c: char) -> (r: bool)
    requires
        from <= to <= cs@.len(),
    ensures
        r == has_no(cs@.subrange(from as int, to as int), c),
{
    let ghost t = cs@.subrange(from as int, to as int);
    let mut j: usize = from;
    while j < to
        invariant
            from <= j <= to <= cs@.len(),
            t == cs@.subrange(from as int, to as int),
            forall|m: int| 0 <= m < j - from ==> #[trigger] t[m] != c,
        decreases to - j,
    {
        if cs[j] == c {
            assert(t[j - from] == c);
            return false;
        }
        assert(t[j - from] == cs@[j as int]);
        j = j + 1;
    }
    true
}

/// Classifies the line `cs[from..to]`.
fn classify(cs: &Vec<char>, from: usize, to: usize) -> (r: Option<Line>)
    requires
        from <= to <= cs@.len(),
    ensures
        match r {
            Some(l) => line_kind(cs@.subrange(from as int, to as int)) == Some(l@),
            None => line_kind(cs@.subrange(from as int, to as int)) is None,
        },
{
    let ghost l = cs@.subrange(from as int, to as int);
    let mut j: usize = from;
    while j < to && blank_char(cs[j])
        invariant
            from <= j <= to <= cs@.len(),
            forall|m: int| from <= m < j ==> is_blank_char(#[trigger] cs@[m]),
        decreases to - j,
    {
        j = j + 1;
    }
    if j == to {
        assert forall|m: int| 0 <= m < l.len() implies is_blank_char(#[trigger] l[m]) by {
            assert(l[m] == cs@[from + m]);
        }
        return Some(Line::Blank);
    }
    assert(!is_blank(l)) by {
        assert(l[j - from] == cs@[j as int]);
    }
    if to - from >= 2 && cs[from] == '[' && cs[to - 1] == ']' && lacks(cs, from + 1, to - 1, ']') {
        let name = string_of(cs, from + 1, to - 1);
        assert(l.subrange(1, l.len() - 1) =~= cs@.subrange(from + 1, to - 1));
        Some(Line::Header(name))
    } else {
        assert(!is_header(l)) by {
            if l.len() >= 2 {
                assert(l.subrange(1, l.len() - 1) =~= cs@.subrange(from + 1, to - 1));
            }
        }
        let mut e: usize = from;
        while e < to && cs[e] != '='
            invariant
                from <= e <= to <= cs@.len(),
                l == cs@.subrange(from as int, to as int),
                find_char(l, '=', e - from) == find_char(l, '=', 0),
            decreases to - e,
        {
            assert(l[e - from] == cs@[e as int]);
            e = e + 1;
        }
        if e < to {
            assert(l[e - from] == cs@[e as int]);
            let key = string_of(cs, from, e);
            let value = string_of(cs, e + 1, to);
            assert(l.subrange(0, e - from) =~= cs@.subrange(from as int, e as int));
            assert(l.subrange(e - from + 1, l.len() as int) =~= cs@.subrange(e + 1, to as int));
            Some(Line::Property(key, value))
        } else {
            None
        }
    }
}

/// Classifies one line of text (without its line break). A malformed line
/// is an error at position 0.
pub fn parse_line(line: &str) -> (r: Result<Line, SyntaxError>)
    ensures
        match line_kind(line@) {
            Some(l) => r matches Ok(x) && x@ == l,
            None => r matches Err(e) && e == (SyntaxError { pos: 0 }),
        },
{
    let cs = chars_of(line);
    assert(cs@.subrange(0, cs@.len() as int) =~= line@);
    match classify(&cs, 0, cs.len()) {
        Some(l) => Ok(l),
        None => Err(SyntaxError { pos: 0 }),
    }
}

/// Classifies every line of `body`, in order. Fails at the start of the
/// first malformed line.
pub fn lex(body: &str) -> (r: Result<Vec<Line>, SyntaxError>)
    ensures
        match ini_lines(body@) {
            Ok(ls) => r matches Ok(v) && lines_view(v@) == ls,
            Err(p) => r matches Err(e) && e == (SyntaxError { pos: p as usize }),
        },
{
    let cs = chars_of(body);
    let mut acc: Vec<Line> = Vec::new();
    let mut i: usize = 0;
    assert(lines_view(acc@) =~= seq![]);
    loop
        invariant
            i <= cs@.len(),
            cs@ == body@,
            scan_lines(cs@, i as int, lines_view(acc@)) == ini_lines(body@),
        decreases cs@.len() - i,
    {
        let mut e: usize = i;
        while e < cs.len() && cs[e] != '\n'
            invariant
                i <= e <= cs@.len(),
                find_char(cs@, '\n', e as int) == find_char(cs@, '\n', i as int),
            decreases cs@.len() - e,
        {
            e = e + 1;
        }
        match classify(&cs, i, e) {
            None => {
                return Err(SyntaxError { pos: i });
            },
            Some(l) => {
                let ghost before = lines_view(acc@);
                let ghost lv = l@;
                acc.push(l);
                assert(lines_view(acc@) =~= before.push(lv));
                if e < cs.len() {
                    i = e + 1;
                } else {
                    return Ok(acc);
                }
            },
        }
    }
}

/// Folds classified lines into sections: a header closes the section in
/// progress and opens a new, empty one; a property sets its key in the
/// section in progress; a blank line changes nothing. The section in
/// progress at the end closes too.
pub fn assemble(lines: &Vec<Line>) -> (r: Config)
    ensures
        r@ == assemble_view(lines_view(lines@)),
{
    let ghost ls = lines_view(lines@);
    let mut done: Vec<Section> = Vec::new();
    let mut name = String::new();
    let mut values = Properties::new();
    let mut i: usize = 0;
    assert(sections_view(done@) =~= seq![]);
    while i < lines.len()
        invariant
            i <= lines@.len(),
            ls == lines_view(lines@),
            (sections_view(done@), (name@, values@)) == assemble_upto(ls, i as nat),
        decreases lines@.len() - i,
    {
        let ghost before = sections_view(done@);
        match &lines[i] {
            Line::Blank => {},
            Line::Header(n) => {
                let prev = Section { name, values };
                done.push(prev);
                assert(sections_view(done@) =~= before.push(prev@));
                name = n.clone();
                values = Properties::new();
            },
            Line::Property(k, v) => {
                values.insert(k.clone(), v.clone());
            },
        }
        i = i + 1;
    }
    let ghost before = sections_view(done@);
    let last = Section { name, values };
    done.push(last);
    assert(sections_view(done@) =~= before.push(last@));
    Config { sections: done }
}

/// Parses a whole INI text into its configuration.
///
/// The first section is always the unnamed one. Fails at the start of the
/// first malformed line: a header without its closing bracket, or a
/// property without `=`.
pub fn parse(body: &str) -> (r: Result<Config, SyntaxError>)
    ensures
        match ini_config(body@) {
            Ok(c) => r matches Ok(cfg) && cfg@ == c,
            Err(p) => r matches Err(e) && e == (SyntaxError { pos: p as usize }),
        },
        r matches Ok(cfg) ==> cfg.sections@.len() >= 1 && cfg.sections@[0].name@ == Seq::<
            char,
        >::empty(),
{
    match lex(body) {
        Ok(lines) => {
            let cfg = assemble(&lines);
            proof {
                lemma_first_section_unnamed(lines_view(lines@));
                assert(cfg.sections@[0]@ == cfg@[0]);
            }
            Ok(cfg)
        },
        Err(e) => Err(e),
    }
}

/// Setting a key makes a lookup of it give the new value, leaves every
/// other key as it was, and keeps keys unique.
pub proof fn lemma_insert_property(
    p: Seq<PropertyView>,
    k: Seq<char>,
    v: Seq<char>,
    other: Seq<char>,
)
    requires
        keys_unique(p),
        other != k,
    ensures
        lookup(insert_property(p, k, v), k) == Some(v),
        lookup(insert_property(p, k, v), other) == lookup(p, other),
        keys_unique(insert_property(p, k, v)),
        insert_property(p, k, v).len() == p.len() + (if lookup(p, k) is Some {
            0int
        } else {
            1int
        }),
{
    let q = insert_property(p, k, v);
    lemma_key_pos(p, k, 0);
    lemma_key_pos(p, other, 0);
    lemma_key_pos(q, k, 0);
    lemma_key_pos(q, other, 0);
    let j = key_pos(p, k, 0);
    let jo = key_pos(p, other, 0);
    let qo = key_pos(q, other, 0);
    if j < p.len() {
        assert(q[j].0 == k);
        assert(key_pos(q, k, 0) == j);
    } else {
        assert(q[p.len() as int].0 == k);
        assert(key_pos(q, k, 0) == p.len());
    }
    if qo < jo {
        assert(q[qo].0 == other);
        assert(qo != j);
        assert(p[qo] == q[qo]);
    }
    if jo < p.len() {
        assert(p[jo].0 == other);
        assert(jo != j);
        assert(p[jo] == q[jo]);
    }
}

/// Setting a key keeps keys unique.
pub proof fn lemma_insert_keeps_keys_unique(p: Seq<PropertyView>, k: Seq<char>, v: Seq<char>)
    requires
        keys_unique(p),
    ensures
        keys_unique(insert_property(p, k, v)),
{
    lemma_key_pos(p, k, 0);
}

proof fn lemma_assemble_upto_unique(ls: Seq<LineView>, n: nat)
    ensures
        ({
            let st = assemble_upto(ls, n);
            &&& keys_unique(st.1.1)
            &&& forall|i: int| 0 <= i < st.0.len() ==> keys_unique(#[trigger] st.0[i].1)
        }),
    decreases n,
{
    if n > 0 && n <= ls.len() {
        lemma_assemble_upto_unique(ls, (n - 1) as nat);
        let st = assemble_upto(ls, (n - 1) as nat);
        match ls[n - 1] {
            LineView::Property(k, v) => lemma_insert_keeps_keys_unique(st.1.1, k, v),
            _ => {},
        }
    }
}

/// In every assembled section, no key occurs twice.
pub proof fn lemma_sections_keys_unique(ls: Seq<LineView>)
    ensures
        forall|i: int|
            0 <= i < assemble_view(ls).len() ==> keys_unique(#[trigger] assemble_view(ls)[i].1),
{
    lemma_assemble_upto_unique(ls, ls.len());
}

proof fn lemma_assemble_upto_first(ls: Seq<LineView>, n: nat)
    ensures
        ({
            let st = assemble_upto(ls, n);
            &&& st.0.len() == 0 ==> st.1.0 == Seq::<char>::empty()
            &&& st.0.len() > 0 ==> st.0[0].0 == Seq::<char>::empty()
        }),
    decreases n,
{
    if n > 0 && n <= ls.len() {
        lemma_assemble_upto_first(ls, (n - 1) as nat);
    }
}

/// Whatever the lines, assembly yields at least one section, and the first
/// one is unnamed, even where it holds no property.
pub proof fn lemma_first_section_unnamed(ls: Seq<LineView>)
    ensures
        assemble_view(ls).len() >= 1,
        assemble_view(ls)[0].0 == Seq::<char>::empty(),
{
    lemma_assemble_upto_first(ls, ls.len());
}

/// Every valid INI text gives at least one section, and the first one is
/// unnamed, even where it holds no property.
pub proof fn lemma_config_starts_unnamed(s: Seq<char>)
    requires
        ini_config(s) is Ok,
    ensures
        ini_config(s)->Ok_0.len() >= 1,
        ini_config(s)->Ok_0[0].0 == Seq::<char>::empty(),
{
    lemma_first_section_unnamed(ini_lines(s)->Ok_0);
}

} // verus!
