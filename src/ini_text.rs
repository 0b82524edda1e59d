//! The text that writes an INI configuration, and the laws that parsing that
//! text gives the configuration back.
use vstd::prelude::*;
use crate::ini::{
    assemble_step, assemble_upto, assemble_view, find_char, has_no, is_header, ini_config, ini_lines,
    insert_property, is_blank, key_pos, keys_unique, lemma_find_char_bounds,
    lemma_first_section_unnamed, lemma_key_pos, lemma_sections_keys_unique, line_kind, scan_lines,
    unnamed_section, LineView, PropertyView, SectionView,
};

verus! {

/// The state of assembly after `ls`, starting from `st`.
pub open spec fn fold_lines(st: (Seq<SectionView>, SectionView), ls: Seq<LineView>) -> (
    Seq<SectionView>,
    SectionView,
)
    decreases ls.len(),
{
    if ls.len() == 0 {
        st
    } else {
        assemble_step(fold_lines(st, ls.drop_last()), ls.last())
    }
}

proof fn lemma_assemble_upto_fold(ls: Seq<LineView>, n: nat)
    requires
        n <= ls.len(),
    ensures
        assemble_upto(ls, n) == fold_lines((seq![], unnamed_section()), ls.take(n as int)),
    decreases n,
{
    if n > 0 {
        lemma_assemble_upto_fold(ls, (n - 1) as nat);
        assert(ls.take(n as int).drop_last() =~= ls.take(n - 1));
    }
}

proof fn lemma_fold_append(
    st: (Seq<SectionView>, SectionView),
    a: Seq<LineView>,
    b: Seq<LineView>,
)
    ensures
        fold_lines(st, a + b) == fold_lines(fold_lines(st, a), b),
    decreases b.len(),
{
    if b.len() == 0 {
        assert(a + b =~= a);
    } else {
        lemma_fold_append(st, a, b.drop_last());
        assert((a + b).drop_last() =~= a + b.drop_last());
        assert((a + b).last() == b.last());
    }
}

/// The lines that set each property of `ps`, in order.
pub open spec fn property_lines(ps: Seq<PropertyView>) -> Seq<LineView> {
    ps.map_values(|p: PropertyView| LineView::Property(p.0, p.1))
}

/// The lines of a section after the first: its header, then its properties.
pub open spec fn section_lines(sec: SectionView) -> Seq<LineView> {
    seq![LineView::Header(sec.0)] + property_lines(sec.1)
}

/// The lines of the sections `c`, one after another.
pub open spec fn sections_lines(c: Seq<SectionView>) -> Seq<LineView>
    decreases c.len(),
{
    if c.len() == 0 {
        seq![]
    } else {
        section_lines(c[0]) + sections_lines(c.drop_first())
    }
}

/// The lines that write a configuration: the properties of the unnamed first
/// section, then each later section.
pub open spec fn config_lines(c: Seq<SectionView>) -> Seq<LineView> {
    property_lines(c[0].1) + sections_lines(c.drop_first())
}

/// The text of one line.
pub open spec fn line_text(l: LineView) -> Seq<char> {
    match l {
        LineView::Blank => seq![],
        LineView::Header(n) => seq!['['] + n + seq![']'],
        LineView::Property(k, v) => k + seq!['='] + v,
    }
}

/// The texts of the lines `ls`, each followed by a line break.
pub open spec fn lines_text(ls: Seq<LineView>) -> Seq<char>
    decreases ls.len(),
{
    if ls.len() == 0 {
        seq![]
    } else {
        line_text(ls[0]) + seq!['\n'] + lines_text(ls.drop_first())
    }
}

/// The text that writes the configuration `c`: one line per header and per
/// property, each ending with a line break.
pub open spec fn config_text(c: Seq<SectionView>) -> Seq<char> {
    lines_text(config_lines(c))
}

/// A section name that a header line can hold and give back.
pub open spec fn is_writable_name(n: Seq<char>) -> bool {
    has_no(n, '\n') && has_no(n, ']')
}

/// A property that a line can hold and give back.
pub open spec fn is_writable_property(p: PropertyView) -> bool {
    &&& has_no(p.0, '=')
    &&& has_no(p.0, '\n')
    &&& has_no(p.1, '\n')
    &&& !is_header(p.0 + seq!['='] + p.1)
}

/// A configuration that its text gives back: the first section is unnamed,
/// each name is writable, keys are unique in each section and each
/// property is writable.
pub open spec fn is_writable_config(c: Seq<SectionView>) -> bool {
    &&& c.len() >= 1
    &&& c[0].0 == Seq::<char>::empty()
    &&& forall|x: int| 0 <= x < c.len() ==> is_writable_name(#[trigger] c[x].0)
    &&& forall|x: int| 0 <= x < c.len() ==> keys_unique(#[trigger] c[x].1)
    &&& forall|x: int, y: int|
        0 <= x < c.len() && 0 <= y < c[x].1.len() ==> is_writable_property(#[trigger] c[x].1[y])
}

proof fn lemma_fold_properties(done: Seq<SectionView>, name: Seq<char>, p: Seq<PropertyView>, ps: Seq<PropertyView>)
    requires
        keys_unique(p + ps),
    ensures
        fold_lines((done, (name, p)), property_lines(ps)) == (done, (name, p + ps)),
    decreases ps.len(),
{
    if ps.len() == 0 {
        assert(p + ps =~= p);
        assert(property_lines(ps) =~= seq![]);
    } else {
        let q = ps.drop_last();
        assert(property_lines(ps).drop_last() =~= property_lines(q));
        assert(p + ps =~= (p + q).push(ps.last()));
        assert(keys_unique(p + q)) by {
            assert forall|a: int, b: int| 0 <= a < b < (p + q).len() implies #[trigger] (p + q)[a].0
                != #[trigger] (p + q)[b].0 by {
                assert((p + q)[a] == (p + ps)[a]);
                assert((p + q)[b] == (p + ps)[b]);
            }
        }
        lemma_fold_properties(done, name, p, q);
        let k = ps.last().0;
        lemma_key_pos(p + q, k, 0);
        let j = key_pos(p + q, k, 0);
        if j < (p + q).len() {
            assert((p + ps)[j] == (p + q)[j]);
            assert((p + ps)[(p + q).len() as int] == ps.last());
        }
    }
}

proof fn lemma_fold_sections(done: Seq<SectionView>, cur: SectionView, c: Seq<SectionView>)
    requires
        forall|x: int| 0 <= x < c.len() ==> keys_unique(#[trigger] c[x].1),
    ensures
        fold_lines((done, cur), sections_lines(c)) == if c.len() == 0 {
            (done, cur)
        } else {
            (done.push(cur) + c.drop_last(), c.last())
        },
    decreases c.len(),
{
    if c.len() > 0 {
        let sec = c[0];
        let rest = c.drop_first();
        lemma_fold_append((done, cur), section_lines(sec), sections_lines(rest));
        lemma_fold_append((done, cur), seq![LineView::Header(sec.0)], property_lines(sec.1));
        assert(seq![LineView::Header(sec.0)].drop_last() =~= seq![]);
        assert(fold_lines((done, cur), Seq::<LineView>::empty()) == (done, cur));
        assert(seq![LineView::Header(sec.0)].last() == LineView::Header(sec.0));
        assert(fold_lines((done, cur), seq![LineView::Header(sec.0)]) == (done.push(cur), (sec.0, Seq::<PropertyView>::empty())));
        assert(keys_unique(sec.1));
        assert(seq![] + sec.1 =~= sec.1);
        lemma_fold_properties(done.push(cur), sec.0, seq![], sec.1);
        assert(fold_lines((done, cur), section_lines(sec)) == (done.push(cur), sec));
        assert forall|x: int| 0 <= x < rest.len() implies keys_unique(#[trigger] rest[x].1) by {
            assert(rest[x] == c[x + 1]);
        }
        lemma_fold_sections(done.push(cur), sec, rest);
        if rest.len() > 0 {
            assert(done.push(cur).push(sec) + rest.drop_last() =~= done.push(cur) + c.drop_last());
            assert(rest.last() == c.last());
        } else {
            assert(done.push(cur) + c.drop_last() =~= done.push(cur));
        }
    }
}

/// The lines of a writable configuration assemble into it.
proof fn lemma_assemble_config_lines(c: Seq<SectionView>)
    requires
        is_writable_config(c),
    ensures
        assemble_view(config_lines(c)) == c,
{
    let ls = config_lines(c);
    lemma_assemble_upto_fold(ls, ls.len());
    assert(ls.take(ls.len() as int) =~= ls);
    lemma_fold_append((seq![], unnamed_section()), property_lines(c[0].1), sections_lines(c.drop_first()));
    assert(keys_unique(c[0].1));
    assert(seq![] + c[0].1 =~= c[0].1);
    lemma_fold_properties(seq![], seq![], seq![], c[0].1);
    let rest = c.drop_first();
    assert forall|x: int| 0 <= x < rest.len() implies keys_unique(#[trigger] rest[x].1) by {
        assert(rest[x] == c[x + 1]);
    }
    lemma_fold_sections(seq![], c[0], rest);
    assert(c[0] == (Seq::<char>::empty(), c[0].1));
    if rest.len() > 0 {
        assert((seq![c[0]] + rest.drop_last()).push(rest.last()) =~= c);
    } else {
        assert(seq![c[0]] =~= c);
    }
    assert(Seq::<SectionView>::empty().push(c[0]) =~= seq![c[0]]);
}

/// A line whose text classifies back to it.
pub open spec fn is_writable_line(l: LineView) -> bool {
    match l {
        LineView::Blank => false,
        LineView::Header(n) => is_writable_name(n),
        LineView::Property(k, v) => is_writable_property((k, v)),
    }
}

proof fn lemma_find_char_skip(s: Seq<char>, c: char, i: int, e: int)
    requires
        0 <= i <= e <= s.len(),
        forall|m: int| i <= m < e ==> #[trigger] s[m] != c,
        e == s.len() || s[e] == c,
    ensures
        find_char(s, c, i) == e,
    decreases e - i,
{
    if i < e {
        lemma_find_char_skip(s, c, i + 1, e);
    }
}

proof fn lemma_line_text(l: LineView)
    requires
        is_writable_line(l),
    ensures
        line_kind(line_text(l)) == Some(l),
        has_no(line_text(l), '\n'),
        line_text(l).len() > 0,
{
    let t = line_text(l);
    match l {
        LineView::Header(n) => {
            assert(t[0] == '[');
            assert(!is_blank(t));
            assert(t.subrange(1, t.len() - 1) =~= n);
            assert(is_header(t));
            assert forall|m: int| 0 <= m < t.len() implies #[trigger] t[m] != '\n' by {
                if 0 < m < t.len() - 1 {
                    assert(t[m] == n[m - 1]);
                }
            }
        },
        LineView::Property(k, v) => {
            assert(t[k.len() as int] == '=');
            assert(!is_blank(t));
            lemma_find_char_skip(t, '=', 0, k.len() as int);
            assert(t.subrange(0, k.len() as int) =~= k);
            assert(t.subrange(k.len() + 1int, t.len() as int) =~= v);
            assert forall|m: int| 0 <= m < t.len() implies #[trigger] t[m] != '\n' by {
                if m < k.len() {
                    assert(t[m] == k[m]);
                } else if m > k.len() {
                    assert(t[m] == v[m - k.len() - 1]);
                }
            }
        },
        LineView::Blank => {},
    }
}

proof fn lemma_scan_written(s: Seq<char>, i: int, acc: Seq<LineView>, ls: Seq<LineView>)
    requires
        forall|x: int| 0 <= x < ls.len() ==> is_writable_line(#[trigger] ls[x]),
        0 <= i <= s.len(),
        s.subrange(i, s.len() as int) == lines_text(ls),
    ensures
        scan_lines(s, i, acc) == Ok::<Seq<LineView>, int>(acc + ls.push(LineView::Blank)),
    decreases ls.len(),
{
    if ls.len() == 0 {
        assert(i == s.len());
        assert(is_blank(s.subrange(i, i)));
        assert(acc + ls.push(LineView::Blank) =~= acc.push(LineView::Blank));
    } else {
        let t0 = line_text(ls[0]);
        let e = i + t0.len();
        let rest = ls.drop_first();
        let tail = lines_text(rest);
        assert(is_writable_line(ls[0]));
        lemma_line_text(ls[0]);
        assert(lines_text(ls) == t0 + seq!['\n'] + tail);
        assert(s.subrange(i, e) =~= t0) by {
            assert forall|m: int| 0 <= m < t0.len() implies s.subrange(i, e)[m] == t0[m] by {
                assert(s.subrange(i, s.len() as int)[m] == lines_text(ls)[m]);
            }
        }
        assert forall|m: int| i <= m < e implies #[trigger] s[m] != '\n' by {
            assert(s[m] == s.subrange(i, e)[m - i]);
        }
        assert(s[e] == '\n') by {
            assert(s.subrange(i, s.len() as int)[e - i] == lines_text(ls)[e - i]);
        }
        lemma_find_char_skip(s, '\n', i, e);
        assert(s.subrange(e + 1, s.len() as int) =~= tail) by {
            assert forall|m: int| 0 <= m < tail.len() implies s.subrange(e + 1, s.len() as int)[m]
                == tail[m] by {
                assert(s.subrange(i, s.len() as int)[e + 1 - i + m] == lines_text(ls)[e + 1 - i + m]);
            }
        }
        assert forall|x: int| 0 <= x < rest.len() implies is_writable_line(#[trigger] rest[x]) by {
            assert(rest[x] == ls[x + 1]);
        }
        lemma_scan_written(s, e + 1, acc.push(ls[0]), rest);
        assert(acc.push(ls[0]) + rest.push(LineView::Blank) =~= acc + ls.push(LineView::Blank));
    }
}

proof fn lemma_assemble_blank_last(ls: Seq<LineView>)
    ensures
        assemble_view(ls.push(LineView::Blank)) == assemble_view(ls),
{
    let l2 = ls.push(LineView::Blank);
    lemma_assemble_upto_fold(ls, ls.len());
    lemma_assemble_upto_fold(l2, l2.len());
    assert(ls.take(ls.len() as int) =~= ls);
    assert(l2.take(l2.len() as int) =~= l2);
    assert(l2.drop_last() =~= ls);
}

proof fn lemma_property_lines_writable(ps: Seq<PropertyView>)
    requires
        forall|y: int| 0 <= y < ps.len() ==> is_writable_property(#[trigger] ps[y]),
    ensures
        forall|x: int| 0 <= x < property_lines(ps).len() ==> is_writable_line(#[trigger] property_lines(ps)[x]),
{
    assert forall|x: int| 0 <= x < property_lines(ps).len() implies is_writable_line(#[trigger] property_lines(ps)[x]) by {
        assert(is_writable_property(ps[x]));
    }
}

proof fn lemma_sections_lines_writable(c: Seq<SectionView>)
    requires
        forall|x: int| 0 <= x < c.len() ==> is_writable_name(#[trigger] c[x].0),
        forall|x: int, y: int|
            0 <= x < c.len() && 0 <= y < c[x].1.len() ==> is_writable_property(#[trigger] c[x].1[y]),
    ensures
        forall|x: int| 0 <= x < sections_lines(c).len() ==> is_writable_line(#[trigger] sections_lines(c)[x]),
    decreases c.len(),
{
    if c.len() > 0 {
        let rest = c.drop_first();
        assert forall|x: int| 0 <= x < rest.len() implies is_writable_name(#[trigger] rest[x].0) by {
            assert(rest[x] == c[x + 1]);
        }
        assert forall|x: int, y: int| 0 <= x < rest.len() && 0 <= y < rest[x].1.len() implies is_writable_property(#[trigger] rest[x].1[y]) by {
            assert(rest[x] == c[x + 1]);
            assert(is_writable_property(c[x + 1].1[y]));
        }
        lemma_sections_lines_writable(rest);
        assert(forall|y: int| 0 <= y < c[0].1.len() ==> is_writable_property(#[trigger] c[0].1[y]));
        lemma_property_lines_writable(c[0].1);
        assert(is_writable_name(c[0].0));
        let a = section_lines(c[0]);
        let b = sections_lines(rest);
        assert forall|x: int| 0 <= x < (a + b).len() implies is_writable_line(#[trigger] (a + b)[x]) by {
            if x == 0 {
            } else if x < a.len() {
                assert(a[x] == property_lines(c[0].1)[x - 1]);
            } else {
                assert((a + b)[x] == b[x - a.len()]);
            }
        }
    }
}

/// Parsing the text of a writable configuration gives back that
/// configuration.
pub proof fn lemma_config_text_round_trip(c: Seq<SectionView>)
    requires
        is_writable_config(c),
    ensures
        ini_config(config_text(c)) == Ok::<Seq<SectionView>, int>(c),
{
    let ls = config_lines(c);
    lemma_assemble_config_lines(c);
    lemma_assemble_blank_last(ls);
    let s = config_text(c);
    let rest = c.drop_first();
    assert forall|x: int| 0 <= x < rest.len() implies is_writable_name(#[trigger] rest[x].0) by {
        assert(rest[x] == c[x + 1]);
    }
    assert forall|x: int, y: int| 0 <= x < rest.len() && 0 <= y < rest[x].1.len() implies is_writable_property(#[trigger] rest[x].1[y]) by {
        assert(rest[x] == c[x + 1]);
        assert(is_writable_property(c[x + 1].1[y]));
    }
    lemma_sections_lines_writable(rest);
    assert(forall|y: int| 0 <= y < c[0].1.len() ==> is_writable_property(#[trigger] c[0].1[y]));
    lemma_property_lines_writable(c[0].1);
    let a = property_lines(c[0].1);
    let b = sections_lines(rest);
    assert forall|x: int| 0 <= x < ls.len() implies is_writable_line(#[trigger] ls[x]) by {
        if x < a.len() {
            assert(ls[x] == a[x]);
        } else {
            assert(ls[x] == b[x - a.len()]);
        }
    }
    assert(s.subrange(0, s.len() as int) =~= s);
    lemma_scan_written(s, 0, seq![], ls);
    assert(seq![] + ls.push(LineView::Blank) =~= ls.push(LineView::Blank));
}

/// A classified line as the lexer gives it.
pub open spec fn is_lexed_line(l: LineView) -> bool {
    match l {
        LineView::Blank => true,
        LineView::Header(n) => is_writable_name(n),
        LineView::Property(k, v) => is_writable_property((k, v)),
    }
}

proof fn lemma_find_char_before(s: Seq<char>, c: char, i: int)
    requires
        0 <= i <= s.len(),
    ensures
        forall|m: int| i <= m < find_char(s, c, i) ==> #[trigger] s[m] != c,
    decreases s.len() - i,
{
    if i < s.len() && s[i] != c {
        lemma_find_char_before(s, c, i + 1);
    }
}

proof fn lemma_line_kind_lexed(l: Seq<char>)
    requires
        has_no(l, '\n'),
        line_kind(l) is Some,
    ensures
        is_lexed_line(line_kind(l)->0),
{
    if !is_blank(l) && is_header(l) {
        let n = l.subrange(1, l.len() - 1);
        assert forall|m: int| 0 <= m < n.len() implies #[trigger] n[m] != '\n' by {
            assert(n[m] == l[m + 1]);
        }
    } else if !is_blank(l) {
        let e = find_char(l, '=', 0);
        lemma_find_char_bounds(l, '=', 0);
        lemma_find_char_before(l, '=', 0);
        let k = l.subrange(0, e);
        let v = l.subrange(e + 1, l.len() as int);
        assert forall|m: int| 0 <= m < k.len() implies #[trigger] k[m] != '=' && k[m] != '\n' by {
            assert(k[m] == l[m]);
        }
        assert forall|m: int| 0 <= m < v.len() implies #[trigger] v[m] != '\n' by {
            assert(v[m] == l[m + e + 1]);
        }
        assert(l =~= k + seq!['='] + v);
    }
}

proof fn lemma_scan_lines_lexed(s: Seq<char>, i: int, acc: Seq<LineView>)
    requires
        0 <= i <= s.len(),
        forall|x: int| 0 <= x < acc.len() ==> is_lexed_line(#[trigger] acc[x]),
    ensures
        scan_lines(s, i, acc) matches Ok(ls) ==> forall|x: int|
            0 <= x < ls.len() ==> is_lexed_line(#[trigger] ls[x]),
    decreases s.len() - i,
{
    let e = find_char(s, '\n', i);
    lemma_find_char_bounds(s, '\n', i);
    let l = s.subrange(i, e);
    lemma_find_char_before(s, '\n', i);
    if line_kind(l) is Some {
        assert forall|m: int| 0 <= m < l.len() implies #[trigger] l[m] != '\n' by {
            assert(l[m] == s[i + m]);
        }
        lemma_line_kind_lexed(l);
        let acc2 = acc.push(line_kind(l)->0);
        assert(forall|x: int| 0 <= x < acc2.len() ==> is_lexed_line(#[trigger] acc2[x]));
        if e < s.len() {
            lemma_scan_lines_lexed(s, e + 1, acc2);
        }
    }
}

/// Every name and every property of a section is as a line gives it.
pub open spec fn is_lexed_section(sec: SectionView) -> bool {
    &&& is_writable_name(sec.0)
    &&& forall|y: int| 0 <= y < sec.1.len() ==> is_writable_property(#[trigger] sec.1[y])
}

proof fn lemma_assemble_upto_lexed(ls: Seq<LineView>, n: nat)
    requires
        forall|x: int| 0 <= x < ls.len() ==> is_lexed_line(#[trigger] ls[x]),
    ensures
        ({
            let st = assemble_upto(ls, n);
            &&& is_lexed_section(st.1)
            &&& forall|x: int| 0 <= x < st.0.len() ==> is_lexed_section(#[trigger] st.0[x])
        }),
    decreases n,
{
    if n > 0 && n <= ls.len() {
        lemma_assemble_upto_lexed(ls, (n - 1) as nat);
        let st = assemble_upto(ls, (n - 1) as nat);
        assert(is_lexed_line(ls[n - 1]));
        match ls[n - 1] {
            LineView::Property(k, v) => {
                let p = st.1.1;
                let q = insert_property(p, k, v);
                lemma_key_pos(p, k, 0);
                assert forall|y: int| 0 <= y < q.len() implies is_writable_property(#[trigger] q[y]) by {
                    if y < p.len() && y != key_pos(p, k, 0) {
                        assert(q[y] == p[y]);
                    }
                }
            },
            LineView::Header(nm) => {
                let st2 = assemble_upto(ls, n);
                assert forall|x: int| 0 <= x < st2.0.len() implies is_lexed_section(#[trigger] st2.0[x]) by {
                    if x < st.0.len() {
                        assert(st2.0[x] == st.0[x]);
                    }
                }
            },
            LineView::Blank => {},
        }
    }
}

/// Writing a parsed configuration back as text and parsing that text again
/// gives the same configuration.
pub proof fn lemma_parse_round_trip(s: Seq<char>)
    requires
        ini_config(s) is Ok,
    ensures
        ini_config(config_text(ini_config(s)->Ok_0)) == ini_config(s),
{
    let ls = ini_lines(s)->Ok_0;
    let c = assemble_view(ls);
    lemma_scan_lines_lexed(s, 0, seq![]);
    lemma_assemble_upto_lexed(ls, ls.len());
    lemma_first_section_unnamed(ls);
    lemma_sections_keys_unique(ls);
    let st = assemble_upto(ls, ls.len());
    assert forall|x: int| 0 <= x < c.len() implies is_lexed_section(#[trigger] c[x]) by {
        if x < st.0.len() {
            assert(c[x] == st.0[x]);
        }
    }
    assert forall|x: int| 0 <= x < c.len() implies is_writable_name(#[trigger] c[x].0) by {
        assert(is_lexed_section(c[x]));
    }
    assert forall|x: int, y: int| 0 <= x < c.len() && 0 <= y < c[x].1.len() implies is_writable_property(
        #[trigger] c[x].1[y],
    ) by {
        assert(is_lexed_section(c[x]));
        assert(is_writable_property(c[x].1[y]));
    }
    lemma_config_text_round_trip(c);
}

} // verus!
