//! Converters: `application.properties` → `rustjvm.toml`, and Spring
//! annotations/imports → RustJVM equivalents.
use vstd::prelude::*;
use crate::compiler::ast::push_dv;
use crate::runtime::wiring::{join, join_strings};
use crate::text::{
    char_alphanumeric, chars_occur_at, chars_of, contains_seq, contains_str, copy_string,
    is_alphanumeric, is_prefix, is_suffix, lowercase_str, new_string, occurs_at, push_char,
    push_str, str_eq, str_lowercase, string_from_chars, string_of, string_of_range, trim,
    trim_chars, trim_end, trim_end_chars, trim_start, trim_start_char, trim_start_char_exec,
    trim_start_chars,
};

verus! {

// ---------------------------------------------------------------------------
// Lines
// ---------------------------------------------------------------------------

/// A line without its carriage return, when it has one.
pub open spec fn strip_cr(l: Seq<char>) -> Seq<char> {
    if l.len() > 0 && l.last() == '\r' {
        l.drop_last()
    } else {
        l
    }
}

/// The lines of `s` from index `i` on, as `str::lines` yields them: split
/// at `\n`, a `\r` before it dropped, no empty line after a final `\n`.
pub open spec fn lines_from(s: Seq<char>, i: int, cur: Seq<char>, acc: Seq<Seq<char>>) -> Seq<Seq<char>>
    decreases s.len() - i,
{
    if i < 0 || i >= s.len() {
        if cur.len() > 0 {
            acc.push(cur)
        } else {
            acc
        }
    } else if s[i] == '\n' {
        lines_from(s, i + 1, Seq::empty(), acc.push(strip_cr(cur)))
    } else {
        lines_from(s, i + 1, cur.push(s[i]), acc)
    }
}

pub open spec fn lines_of(s: Seq<char>) -> Seq<Seq<char>> {
    lines_from(s, 0, Seq::empty(), Seq::empty())
}

/// The lines of a text, as `str::lines` yields them.
pub fn lines(s: &str) -> (r: Vec<Vec<char>>)
    ensures
        r.deep_view() == lines_of(s@),
{
    let cs = chars_of(s);
    let mut out: Vec<Vec<char>> = Vec::new();
    let mut cur: Vec<char> = Vec::new();
    let mut i: usize = 0;
    assert(out.deep_view() =~= Seq::<Seq<char>>::empty());
    while i < cs.len()
        invariant
            i <= cs@.len(),
            cs@ == s@,
            lines_of(s@) == lines_from(s@, i as int, cur@, out.deep_view()),
        decreases cs.len() - i,
    {
        if cs[i] == '\n' {
            let mut line = cur;
            if line.len() > 0 && line[line.len() - 1] == '\r' {
                line.pop();
                assert(line@ =~= strip_cr(cur@));
            }
            assert(line.deep_view() =~= line@);
            push_dv(&mut out, line);
            cur = Vec::new();
            assert(cur@ =~= Seq::<char>::empty());
        } else {
            cur.push(cs[i]);
        }
        i = i + 1;
    }
    if cur.len() > 0 {
        assert(cur.deep_view() =~= cur@);
        push_dv(&mut out, cur);
    }
    out
}

// ---------------------------------------------------------------------------
// Properties
// ---------------------------------------------------------------------------

/// The converted lines of each `rustjvm.toml` section.
pub struct TomlSections {
    pub server: Seq<Seq<char>>,
    pub database: Seq<Seq<char>>,
    pub logging: Seq<Seq<char>>,
    pub unmapped: Seq<Seq<char>>,
}

pub open spec fn quoted(key: Seq<char>, v: Seq<char>) -> Seq<char> {
    key + " = \""@ + v + "\""@
}

/// `v` without a leading `jdbc:`.
pub open spec fn strip_jdbc(v: Seq<char>) -> Seq<char> {
    if is_prefix("jdbc:"@, v) {
        v.skip(5)
    } else {
        v
    }
}

/// Where one `key = value` property goes.
pub open spec fn place_property(t: TomlSections, key: Seq<char>, value: Seq<char>) -> TomlSections {
    if key == "server.port"@ {
        TomlSections { server: t.server.push("port = "@ + value), ..t }
    } else if key == "server.address"@ {
        TomlSections { server: t.server.push(quoted("host"@, value)), ..t }
    } else if key == "spring.datasource.url"@ {
        TomlSections { database: t.database.push(quoted("url"@, strip_jdbc(value))), ..t }
    } else if key == "spring.datasource.username"@ {
        TomlSections { database: t.database.push(quoted("username"@, value)), ..t }
    } else if key == "spring.datasource.password"@ {
        TomlSections { database: t.database.push(quoted("password"@, value)), ..t }
    } else if key == "spring.datasource.hikari.maximum-pool-size"@ {
        TomlSections { database: t.database.push("max_pool_size = "@ + value), ..t }
    } else if key == "logging.level.root"@ {
        TomlSections { logging: t.logging.push(quoted("level"@, str_lowercase(value))), ..t }
    } else if key == "spring.application.name"@ {
        TomlSections { server: t.server.push("# application name: "@ + value), ..t }
    } else {
        TomlSections {
            unmapped: t.unmapped.push("# TODO(migrate): "@ + key + " = "@ + value),
            ..t
        }
    }
}

/// The index of the first key/value separator in `l` (`=` or `:`, as in
/// the `.properties` format), if any.
pub open spec fn first_sep(l: Seq<char>, i: int) -> Option<int>
    decreases l.len() - i,
{
    if i < 0 || i >= l.len() {
        None
    } else if l[i] == '=' || l[i] == ':' {
        Some(i)
    } else {
        first_sep(l, i + 1)
    }
}

/// What one properties line contributes.
pub open spec fn place_line(t: TomlSections, line: Seq<char>) -> TomlSections {
    let l = trim(line);
    if l.len() == 0 || l[0] == '#' || l[0] == '!' {
        t
    } else {
        match first_sep(l, 0) {
            None => t,
            Some(e) => place_property(t, trim(l.take(e)), trim(l.skip(e + 1))),
        }
    }
}

pub open spec fn place_lines(t: TomlSections, lines: Seq<Seq<char>>) -> TomlSections
    decreases lines.len(),
{
    if lines.len() == 0 {
        t
    } else {
        place_lines(place_line(t, lines[0]), lines.drop_first())
    }
}

/// Each line followed by a newline.
pub open spec fn each_line(ls: Seq<Seq<char>>) -> Seq<char>
    decreases ls.len(),
{
    if ls.len() == 0 {
        Seq::empty()
    } else {
        each_line(ls.drop_last()) + ls.last() + seq!['\n']
    }
}

pub open spec fn section(header: Seq<char>, ls: Seq<Seq<char>>) -> Seq<char> {
    if ls.len() == 0 {
        Seq::empty()
    } else {
        header + each_line(ls) + seq!['\n']
    }
}

/// The `rustjvm.toml` text for the converted sections.
pub open spec fn render_toml(t: TomlSections) -> Seq<char> {
    "# Generated by rustjvm migrate convert\n\n"@ + section("[server]\n"@, t.server) + section(
        "[database]\n"@,
        t.database,
    ) + section("[logging]\n"@, t.logging) + if t.unmapped.len() == 0 {
        Seq::<char>::empty()
    } else {
        "# --- Unmapped properties (review manually) ---\n"@ + each_line(t.unmapped)
    }
}

pub open spec fn no_sections() -> TomlSections {
    TomlSections {
        server: Seq::empty(),
        database: Seq::empty(),
        logging: Seq::empty(),
        unmapped: Seq::empty(),
    }
}

/// A key that maps to a `rustjvm.toml` setting.
pub open spec fn mapped_key(k: Seq<char>) -> bool {
    ||| k == "server.port"@
    ||| k == "server.address"@
    ||| k == "spring.datasource.url"@
    ||| k == "spring.datasource.username"@
    ||| k == "spring.datasource.password"@
    ||| k == "spring.datasource.hikari.maximum-pool-size"@
    ||| k == "logging.level.root"@
    ||| k == "spring.application.name"@
}

/// The commented TODO a properties line becomes, when it is a `key = value`
/// line whose key has no mapping.
pub open spec fn unmapped_entry(line: Seq<char>) -> Option<Seq<char>> {
    let l = trim(line);
    if l.len() == 0 || l[0] == '#' || l[0] == '!' {
        None
    } else {
        match first_sep(l, 0) {
            None => None,
            Some(e) => {
                let k = trim(l.take(e));
                if mapped_key(k) {
                    None
                } else {
                    Some("# TODO(migrate): "@ + k + " = "@ + trim(l.skip(e + 1)))
                }
            },
        }
    }
}

pub open spec fn entry_seq(o: Option<Seq<char>>) -> Seq<Seq<char>> {
    match o {
        Some(u) => seq![u],
        None => Seq::empty(),
    }
}

/// The unmapped entries of `ls`, in order.
pub open spec fn unmapped_entries(ls: Seq<Seq<char>>) -> Seq<Seq<char>>
    decreases ls.len(),
{
    if ls.len() == 0 {
        Seq::empty()
    } else {
        entry_seq(unmapped_entry(ls[0])) + unmapped_entries(ls.drop_first())
    }
}

proof fn lemma_place_line_unmapped(t: TomlSections, line: Seq<char>)
    ensures
        place_line(t, line).unmapped == t.unmapped + entry_seq(unmapped_entry(line)),
{
    let l = trim(line);
    if l.len() == 0 || l[0] == '#' || l[0] == '!' {
        assert(t.unmapped + Seq::<Seq<char>>::empty() =~= t.unmapped);
    } else {
        match first_sep(l, 0) {
            None => {
                assert(t.unmapped + Seq::<Seq<char>>::empty() =~= t.unmapped);
            },
            Some(e) => {
                let k = trim(l.take(e));
                if mapped_key(k) {
                    assert(t.unmapped + Seq::<Seq<char>>::empty() =~= t.unmapped);
                } else {
                    assert(t.unmapped + seq![unmapped_entry(line)->0] =~= t.unmapped.push(
                        unmapped_entry(line)->0,
                    ));
                }
            },
        }
    }
}

proof fn lemma_place_lines_unmapped(t: TomlSections, ls: Seq<Seq<char>>)
    ensures
        place_lines(t, ls).unmapped == t.unmapped + unmapped_entries(ls),
    decreases ls.len(),
{
    if ls.len() == 0 {
        assert(t.unmapped + Seq::<Seq<char>>::empty() =~= t.unmapped);
    } else {
        lemma_place_line_unmapped(t, ls[0]);
        lemma_place_lines_unmapped(place_line(t, ls[0]), ls.drop_first());
        assert(t.unmapped + entry_seq(unmapped_entry(ls[0])) + unmapped_entries(ls.drop_first())
            =~= t.unmapped + unmapped_entries(ls));
    }
}

proof fn lemma_entry_listed(ls: Seq<Seq<char>>, i: int)
    requires
        0 <= i < ls.len(),
        unmapped_entry(ls[i]) is Some,
    ensures
        exists|j: int| 0 <= j < unmapped_entries(ls).len() && unmapped_entries(ls)[j]
            == unmapped_entry(ls[i])->0,
    decreases i,
{
    let u = unmapped_entry(ls[i])->0;
    let head = entry_seq(unmapped_entry(ls[0]));
    if i == 0 {
        assert(unmapped_entries(ls)[0] == u);
    } else {
        assert(ls.drop_first()[i - 1] == ls[i]);
        lemma_entry_listed(ls.drop_first(), i - 1);
        let j = choose|j: int| 0 <= j < unmapped_entries(ls.drop_first()).len()
            && unmapped_entries(ls.drop_first())[j] == u;
        assert(unmapped_entries(ls)[head.len() + j] == u);
    }
}

proof fn lemma_each_line_concat(a: Seq<Seq<char>>, b: Seq<Seq<char>>)
    ensures
        each_line(a + b) == each_line(a) + each_line(b),
    decreases b.len(),
{
    if b.len() == 0 {
        assert(a + b =~= a);
        assert(each_line(a) + Seq::<char>::empty() =~= each_line(a));
    } else {
        assert((a + b).drop_last() =~= a + b.drop_last());
        lemma_each_line_concat(a, b.drop_last());
        assert(each_line(a + b) =~= each_line(a) + each_line(b));
    }
}

proof fn lemma_occurs_shift(p: Seq<char>, a: Seq<char>, s: Seq<char>, b: Seq<char>, i: int)
    requires
        occurs_at(p, s, i),
    ensures
        occurs_at(p, a + s + b, a.len() + i),
{
    assert((a + s + b).subrange(a.len() + i, a.len() + i + p.len()) =~= s.subrange(i, i + p.len()));
}

proof fn lemma_each_line_has(us: Seq<Seq<char>>, j: int)
    requires
        0 <= j < us.len(),
    ensures
        contains_seq(each_line(us), us[j] + seq!['\n']),
{
    let line = us[j] + seq!['\n'];
    let front = us.take(j);
    let back = us.skip(j + 1);
    assert(us =~= front + seq![us[j]] + back);
    lemma_each_line_concat(front + seq![us[j]], back);
    lemma_each_line_concat(front, seq![us[j]]);
    let single = seq![us[j]];
    assert(single.drop_last() =~= Seq::<Seq<char>>::empty());
    assert(single.last() == us[j]);
    assert(each_line(single.drop_last()) == Seq::<char>::empty());
    assert(each_line(single) == Seq::<char>::empty() + us[j] + seq!['\n']);
    assert(each_line(single) =~= line);
    assert(occurs_at(line, line, 0)) by {
        assert(line.subrange(0, line.len() as int) =~= line);
    }
    lemma_occurs_shift(line, each_line(front), line, each_line(back), 0);
    assert(each_line(us) == each_line(front) + line + each_line(back));
}

/// Unmapped keys are preserved as commented TODOs, never dropped: every
/// `key = value` line of the properties whose key has no mapping appears
/// in the converted text as a `# TODO(migrate): key = value` line.
pub proof fn lemma_unmapped_kept(props: Seq<char>, i: int)
    requires
        0 <= i < lines_of(props).len(),
        unmapped_entry(lines_of(props)[i]) is Some,
    ensures
        contains_seq(
            convert_properties_spec(props),
            unmapped_entry(lines_of(props)[i])->0 + seq!['\n'],
        ),
{
    let ls = lines_of(props);
    let t = place_lines(no_sections(), ls);
    let u = unmapped_entry(ls[i])->0;
    lemma_place_lines_unmapped(no_sections(), ls);
    assert(t.unmapped =~= unmapped_entries(ls));
    lemma_entry_listed(ls, i);
    let j = choose|j: int| 0 <= j < unmapped_entries(ls).len() && unmapped_entries(ls)[j] == u;
    lemma_each_line_has(t.unmapped, j);
    let line = u + seq!['\n'];
    let k = choose|k: int| occurs_at(line, each_line(t.unmapped), k);
    let prefix = "# Generated by rustjvm migrate convert\n\n"@ + section("[server]\n"@, t.server)
        + section("[database]\n"@, t.database) + section("[logging]\n"@, t.logging)
        + "# --- Unmapped properties (review manually) ---\n"@;
    lemma_occurs_shift(line, prefix, each_line(t.unmapped), Seq::empty(), k);
    assert(render_toml(t) =~= prefix + each_line(t.unmapped) + Seq::<char>::empty());
}

/// The key and value of a `key = value` properties line (not blank, not a
/// comment, with a separator).
pub open spec fn property_of(line: Seq<char>) -> Option<(Seq<char>, Seq<char>)> {
    let l = trim(line);
    if l.len() == 0 || l[0] == '#' || l[0] == '!' {
        None
    } else {
        match first_sep(l, 0) {
            None => None,
            Some(e) => Some((trim(l.take(e)), trim(l.skip(e + 1)))),
        }
    }
}

/// The key of a `key = value` properties line.
pub open spec fn prop_key(line: Seq<char>) -> Seq<char> {
    match property_of(line) {
        Some((k, v)) => k,
        None => Seq::empty(),
    }
}

/// The value of a `key = value` properties line.
pub open spec fn prop_value(line: Seq<char>) -> Seq<char> {
    match property_of(line) {
        Some((k, v)) => v,
        None => Seq::empty(),
    }
}

/// The section of `t` a mapped key's setting goes to.
pub open spec fn section_of(t: TomlSections, key: Seq<char>) -> Seq<Seq<char>> {
    if key == "server.port"@ || key == "server.address"@ || key == "spring.application.name"@ {
        t.server
    } else if key == "logging.level.root"@ {
        t.logging
    } else {
        t.database
    }
}

/// The setting line a mapped key and its value become.
pub open spec fn mapped_text(key: Seq<char>, value: Seq<char>) -> Seq<char> {
    if key == "server.port"@ {
        "port = "@ + value
    } else if key == "server.address"@ {
        quoted("host"@, value)
    } else if key == "spring.datasource.url"@ {
        quoted("url"@, strip_jdbc(value))
    } else if key == "spring.datasource.username"@ {
        quoted("username"@, value)
    } else if key == "spring.datasource.password"@ {
        quoted("password"@, value)
    } else if key == "spring.datasource.hikari.maximum-pool-size"@ {
        "max_pool_size = "@ + value
    } else if key == "logging.level.root"@ {
        quoted("level"@, str_lowercase(value))
    } else {
        "# application name: "@ + value
    }
}

/// Sections only grow as lines are placed.
pub open spec fn grown(a: TomlSections, b: TomlSections) -> bool {
    &&& b.server.take(a.server.len() as int) == a.server && a.server.len() <= b.server.len()
    &&& b.database.take(a.database.len() as int) == a.database && a.database.len() <= b.database.len()
    &&& b.logging.take(a.logging.len() as int) == a.logging && a.logging.len() <= b.logging.len()
}

proof fn lemma_place_line_grows(t: TomlSections, line: Seq<char>)
    ensures
        grown(t, place_line(t, line)),
{
    let u = place_line(t, line);
    assert(u.server.take(t.server.len() as int) =~= t.server);
    assert(u.database.take(t.database.len() as int) =~= t.database);
    assert(u.logging.take(t.logging.len() as int) =~= t.logging);
}

proof fn lemma_place_lines_grow(t: TomlSections, ls: Seq<Seq<char>>)
    ensures
        grown(t, place_lines(t, ls)),
    decreases ls.len(),
{
    if ls.len() == 0 {
        assert(t.server.take(t.server.len() as int) =~= t.server);
        assert(t.database.take(t.database.len() as int) =~= t.database);
        assert(t.logging.take(t.logging.len() as int) =~= t.logging);
    } else {
        let t1 = place_line(t, ls[0]);
        lemma_place_line_grows(t, ls[0]);
        lemma_place_lines_grow(t1, ls.drop_first());
        let u = place_lines(t1, ls.drop_first());
        assert(u.server.take(t.server.len() as int) =~= u.server.take(t1.server.len() as int).take(t.server.len() as int));
        assert(u.database.take(t.database.len() as int) =~= u.database.take(t1.database.len() as int).take(
            t.database.len() as int,
        ));
        assert(u.logging.take(t.logging.len() as int) =~= u.logging.take(t1.logging.len() as int).take(
            t.logging.len() as int,
        ));
    }
}

proof fn lemma_mapped_placed(t: TomlSections, ls: Seq<Seq<char>>, i: int)
    requires
        0 <= i < ls.len(),
        property_of(ls[i]) matches Some((k, v)) && mapped_key(k),
    ensures
        section_of(place_lines(t, ls), prop_key(ls[i])).contains(
            mapped_text(prop_key(ls[i]), prop_value(ls[i])),
        ),
    decreases i,
{
    let t1 = place_line(t, ls[0]);
    if i == 0 {
    reveal_strlit("server.port");
    reveal_strlit("server.address");
    reveal_strlit("spring.datasource.url");
    reveal_strlit("spring.datasource.username");
    reveal_strlit("spring.datasource.password");
    reveal_strlit("spring.datasource.hikari.maximum-pool-size");
    reveal_strlit("logging.level.root");
    reveal_strlit("spring.application.name");
        let (k, v) = (prop_key(ls[0]), prop_value(ls[0]));
        lemma_place_lines_grow(t1, ls.drop_first());
        let u = place_lines(t1, ls.drop_first());
        let before = section_of(t1, k);
        assert(before.last() == mapped_text(k, v));
        assert(section_of(u, k).take(before.len() as int) == before);
        assert(section_of(u, k)[before.len() - 1] == mapped_text(k, v));
    } else {
        assert(ls.drop_first()[i - 1] == ls[i]);
        lemma_mapped_placed(t1, ls.drop_first(), i - 1);
    }
}

/// Mapped keys are converted, never dropped: every `key = value` line of
/// the properties whose key has a mapping appears in the converted text as
/// its setting line, in its section.
pub proof fn lemma_mapped_kept(props: Seq<char>, i: int)
    requires
        0 <= i < lines_of(props).len(),
        property_of(lines_of(props)[i]) matches Some((k, v)) && mapped_key(k),
    ensures
        contains_seq(
            convert_properties_spec(props),
            mapped_text(prop_key(lines_of(props)[i]), prop_value(lines_of(props)[i])) + seq!['\n'],
        ),
{
    let ls = lines_of(props);
    let (k, v) = (prop_key(ls[i]), prop_value(ls[i]));
    let t = place_lines(no_sections(), ls);
    lemma_mapped_placed(no_sections(), ls, i);
    let xs = section_of(t, k);
    let j = choose|j: int| 0 <= j < xs.len() && xs[j] == mapped_text(k, v);
    lemma_each_line_has(xs, j);
    let line = mapped_text(k, v) + seq!['\n'];
    let p = choose|p: int| occurs_at(line, each_line(xs), p);
    reveal_strlit("server.port");
    reveal_strlit("server.address");
    reveal_strlit("spring.datasource.url");
    reveal_strlit("spring.datasource.username");
    reveal_strlit("spring.datasource.password");
    reveal_strlit("spring.datasource.hikari.maximum-pool-size");
    reveal_strlit("logging.level.root");
    reveal_strlit("spring.application.name");
    let header = if k == "server.port"@ || k == "server.address"@ || k == "spring.application.name"@ {
        "[server]\n"@
    } else if k == "logging.level.root"@ {
        "[logging]\n"@
    } else {
        "[database]\n"@
    };
    lemma_occurs_shift(line, header, each_line(xs), seq!['\n'], p);
    let sec = section(header, xs);
    assert(sec == header + each_line(xs) + seq!['\n']);
    let q = header.len() + p;
    let top = "# Generated by rustjvm migrate convert\n\n"@;
    let ss = section("[server]\n"@, t.server);
    let ds = section("[database]\n"@, t.database);
    let gs = section("[logging]\n"@, t.logging);
    let us = if t.unmapped.len() == 0 {
        Seq::<char>::empty()
    } else {
        "# --- Unmapped properties (review manually) ---\n"@ + each_line(t.unmapped)
    };
    assert(render_toml(t) == top + ss + ds + gs + us);
    if k == "server.port"@ || k == "server.address"@ || k == "spring.application.name"@ {
        assert(sec == ss);
        lemma_occurs_shift(line, top, ss, ds + gs + us, q);
        assert(top + ss + (ds + gs + us) =~= render_toml(t));
    } else if k == "logging.level.root"@ {
        assert(sec == gs);
        lemma_occurs_shift(line, top + ss + ds, gs, us, q);
    } else {
        assert(sec == ds);
        lemma_occurs_shift(line, top + ss, ds, gs + us, q);
        assert(top + ss + ds + (gs + us) =~= render_toml(t));
    }
}

/// The `rustjvm.toml` text for an `application.properties` text.
pub open spec fn convert_properties_spec(props: Seq<char>) -> Seq<char> {
    render_toml(place_lines(no_sections(), lines_of(props)))
}

struct Sections {
    server: Vec<String>,
    database: Vec<String>,
    logging: Vec<String>,
    unmapped: Vec<String>,
}

impl Sections {
    spec fn model(&self) -> TomlSections {
        TomlSections {
            server: self.server.deep_view(),
            database: self.database.deep_view(),
            logging: self.logging.deep_view(),
            unmapped: self.unmapped.deep_view(),
        }
    }
}

fn quoted_exec(key: &str, v: &str) -> (r: String)
    ensures
        r@ == quoted(key@, v@),
{
    let mut s = string_of(key);
    push_str(&mut s, " = \"");
    push_str(&mut s, v);
    push_str(&mut s, "\"");
    s
}

fn joined(a: &str, b: &str) -> (r: String)
    ensures
        r@ == a@ + b@,
{
    let mut s = string_of(a);
    push_str(&mut s, b);
    s
}

fn strip_jdbc_exec(v: &Vec<char>) -> (r: String)
    ensures
        r@ == strip_jdbc(v@),
{
    let p = chars_of("jdbc:");
    if crate::text::starts_with_chars(v.as_slice(), p.as_slice()) {
        proof {
            reveal_strlit("jdbc:");
        }
        string_of_range(v, 5, v.len())
    } else {
        string_from_chars(v.as_slice())
    }
}

fn place_property_exec(t: &mut Sections, key: &Vec<char>, value: &Vec<char>)
    ensures
        final(t).model() == place_property(old(t).model(), key@, value@),
{
    let k = string_from_chars(key.as_slice());
    let v = string_from_chars(value.as_slice());
    let ks = k.as_str();
    let vs = v.as_str();
    if str_eq(ks, "server.port") {
        push_dv(&mut t.server, joined("port = ", vs));
    } else if str_eq(ks, "server.address") {
        push_dv(&mut t.server, quoted_exec("host", vs));
    } else if str_eq(ks, "spring.datasource.url") {
        let url = strip_jdbc_exec(value);
        push_dv(&mut t.database, quoted_exec("url", url.as_str()));
    } else if str_eq(ks, "spring.datasource.username") {
        push_dv(&mut t.database, quoted_exec("username", vs));
    } else if str_eq(ks, "spring.datasource.password") {
        push_dv(&mut t.database, quoted_exec("password", vs));
    } else if str_eq(ks, "spring.datasource.hikari.maximum-pool-size") {
        push_dv(&mut t.database, joined("max_pool_size = ", vs));
    } else if str_eq(ks, "logging.level.root") {
        let low = lowercase_str(vs);
        push_dv(&mut t.logging, quoted_exec("level", low.as_str()));
    } else if str_eq(ks, "spring.application.name") {
        push_dv(&mut t.server, joined("# application name: ", vs));
    } else {
        let mut s = string_of("# TODO(migrate): ");
        push_str(&mut s, ks);
        push_str(&mut s, " = ");
        push_str(&mut s, vs);
        push_dv(&mut t.unmapped, s);
    }
}

fn find_sep(l: &Vec<char>) -> (r: Option<usize>)
    ensures
        match r {
            Some(e) => first_sep(l@, 0) == Some(e as int) && e < l@.len(),
            None => first_sep(l@, 0) is None,
        },
{
    let mut i: usize = 0;
    while i < l.len()
        invariant
            i <= l@.len(),
            first_sep(l@, 0) == first_sep(l@, i as int),
        decreases l.len() - i,
    {
        if l[i] == '=' || l[i] == ':' {
            return Some(i);
        }
        i = i + 1;
    }
    None
}

fn take_chars(l: &Vec<char>, n: usize) -> (r: Vec<char>)
    requires
        n <= l@.len(),
    ensures
        r@ == l@.take(n as int),
{
    let mut out: Vec<char> = Vec::new();
    let mut k: usize = 0;
    while k < n
        invariant
            k <= n <= l@.len(),
            out@ == l@.take(k as int),
        decreases n - k,
    {
        out.push(l[k]);
        assert(l@.take(k + 1) =~= l@.take(k as int).push(l@[k as int]));
        k = k + 1;
    }
    out
}

fn skip_chars(l: &Vec<char>, n: usize) -> (r: Vec<char>)
    requires
        n <= l@.len(),
    ensures
        r@ == l@.skip(n as int),
{
    let mut out: Vec<char> = Vec::new();
    let mut k: usize = n;
    while k < l.len()
        invariant
            n <= k <= l@.len(),
            out@ == l@.subrange(n as int, k as int),
        decreases l.len() - k,
    {
        out.push(l[k]);
        assert(l@.subrange(n as int, k + 1) =~= l@.subrange(n as int, k as int).push(l@[k as int]));
        k = k + 1;
    }
    assert(out@ =~= l@.skip(n as int));
    out
}

fn place_line_exec(t: &mut Sections, line: &Vec<char>)
    ensures
        final(t).model() == place_line(old(t).model(), line@),
{
    let l = trim_chars(line.as_slice());
    if l.len() == 0 || l[0] == '#' || l[0] == '!' {
        return;
    }
    match find_sep(&l) {
        None => {},
        Some(e) => {
            let k0 = take_chars(&l, e);
            let v0 = skip_chars(&l, e + 1);
            let key = trim_chars(k0.as_slice());
            let value = trim_chars(v0.as_slice());
            place_property_exec(t, &key, &value);
        },
    }
}

fn each_line_exec(out: &mut String, ls: &Vec<String>)
    ensures
        final(out)@ == old(out)@ + each_line(ls.deep_view()),
{
    let ghost o0 = out@;
    let ghost lm = ls.deep_view();
    let mut i: usize = 0;
    assert(lm.take(0) =~= Seq::<Seq<char>>::empty());
    assert(o0 + each_line(lm.take(0)) =~= o0);
    while i < ls.len()
        invariant
            i <= ls@.len(),
            lm == ls.deep_view(),
            out@ == o0 + each_line(lm.take(i as int)),
        decreases ls.len() - i,
    {
        push_str(out, ls[i].as_str());
        push_str(out, "\n");
        proof {
            reveal_strlit("\n");
            assert(lm.take(i + 1).drop_last() =~= lm.take(i as int));
            assert(lm.take(i + 1).last() == ls@[i as int]@);
            assert(out@ =~= o0 + each_line(lm.take(i + 1)));
        }
        i = i + 1;
    }
    assert(lm.take(ls@.len() as int) =~= lm);
}

fn section_exec(out: &mut String, header: &str, ls: &Vec<String>)
    ensures
        final(out)@ == old(out)@ + section(header@, ls.deep_view()),
{
    if ls.len() == 0 {
        assert(ls.deep_view().len() == 0);
        assert(old(out)@ + Seq::<char>::empty() =~= old(out)@);
        return;
    }
    let ghost o0 = out@;
    push_str(out, header);
    each_line_exec(out, ls);
    push_str(out, "\n");
    proof {
        reveal_strlit("\n");
        assert(out@ =~= o0 + section(header@, ls.deep_view()));
    }
}

/// Converts `application.properties` content into `rustjvm.toml` content.
/// Unmapped keys are preserved as commented TODOs so nothing is lost.
pub fn convert_properties(props: &str) -> (r: String)
    ensures
        r@ == convert_properties_spec(props@),
{
    let ls = lines(props);
    let mut t = Sections {
        server: Vec::new(),
        database: Vec::new(),
        logging: Vec::new(),
        unmapped: Vec::new(),
    };
    let ghost lm = ls.deep_view();
    let mut i: usize = 0;
    assert(t.server.deep_view() =~= Seq::<Seq<char>>::empty());
    assert(t.database.deep_view() =~= Seq::<Seq<char>>::empty());
    assert(t.logging.deep_view() =~= Seq::<Seq<char>>::empty());
    assert(t.unmapped.deep_view() =~= Seq::<Seq<char>>::empty());
    assert(t.model() == no_sections());
    assert(lm.skip(0) =~= lm);
    while i < ls.len()
        invariant
            i <= ls@.len(),
            lm == ls.deep_view(),
            lm.len() == ls@.len(),
            place_lines(no_sections(), lm) == place_lines(t.model(), lm.skip(i as int)),
        decreases ls.len() - i,
    {
        assert(lm.skip(i as int)[0] == ls@[i as int]@);
        assert(lm.skip(i as int).drop_first() =~= lm.skip(i + 1));
        place_line_exec(&mut t, &ls[i]);
        i = i + 1;
    }
    assert(lm.skip(lm.len() as int) =~= Seq::<Seq<char>>::empty());
    let mut toml = string_of("# Generated by rustjvm migrate convert\n\n");
    section_exec(&mut toml, "[server]\n", &t.server);
    section_exec(&mut toml, "[database]\n", &t.database);
    section_exec(&mut toml, "[logging]\n", &t.logging);
    if t.unmapped.len() > 0 {
        push_str(&mut toml, "# --- Unmapped properties (review manually) ---\n");
        each_line_exec(&mut toml, &t.unmapped);
    }
    proof {
        let m = t.model();
        assert(m == place_lines(no_sections(), lm));
        if m.unmapped.len() == 0 {
            assert(toml@ =~= render_toml(m));
        } else {
            assert(toml@ =~= render_toml(m));
        }
    }
    toml
}

// ---------------------------------------------------------------------------
// Annotations and imports
// ---------------------------------------------------------------------------

/// Number of annotation/import mapping rules.
pub const MAPPING_COUNT: usize = 13;

/// Mapping rule `k`: the fully-qualified Spring import, the RustJVM
/// annotation that replaces it, and the RustJVM import.
pub open spec fn mapping_rule(k: int) -> (Seq<char>, Seq<char>, Seq<char>) {
    if k == 0 {
        (
            "org.springframework.boot.autoconfigure.SpringBootApplication"@,
            "@RustJVMApplication"@,
            "rustjvm.spring.RustJVMApplication"@,
        )
    } else if k == 1 {
        (
            "org.springframework.stereotype.Service"@,
            "@Service"@,
            "rustjvm.spring.context.Service"@,
        )
    } else if k == 2 {
        (
            "org.springframework.stereotype.Component"@,
            "@Component"@,
            "rustjvm.spring.context.Component"@,
        )
    } else if k == 3 {
        (
            "org.springframework.beans.factory.annotation.Autowired"@,
            "@Autowired"@,
            "rustjvm.spring.context.Autowired"@,
        )
    } else if k == 4 {
        (
            "org.springframework.context.annotation.Configuration"@,
            "@Configuration"@,
            "rustjvm.spring.context.Configuration"@,
        )
    } else if k == 5 {
        (
            "org.springframework.context.annotation.Bean"@,
            "@Bean"@,
            "rustjvm.spring.context.Bean"@,
        )
    } else if k == 6 {
        (
            "org.springframework.context.annotation.Scope"@,
            "@Scope"@,
            "rustjvm.spring.context.Scope"@,
        )
    } else if k == 7 {
        (
            "org.springframework.context.annotation.ComponentScan"@,
            "@ComponentScan"@,
            "rustjvm.spring.context.ComponentScan"@,
        )
    } else if k == 8 {
        (
            "org.springframework.web.bind.annotation.RestController"@,
            "@RestController"@,
            "rustjvm.spring.web.RestController"@,
        )
    } else if k == 9 {
        (
            "org.springframework.web.bind.annotation.GetMapping"@,
            "@GetMapping"@,
            "rustjvm.spring.web.GetMapping"@,
        )
    } else if k == 10 {
        (
            "org.springframework.web.bind.annotation.PostMapping"@,
            "@PostMapping"@,
            "rustjvm.spring.web.PostMapping"@,
        )
    } else if k == 11 {
        (
            "org.springframework.web.bind.annotation.RequestMapping"@,
            "@RequestMapping"@,
            "rustjvm.spring.web.RequestMapping"@,
        )
    } else {
        (
            "org.springframework.web.bind.annotation.RequestParam"@,
            "@RequestParam"@,
            "rustjvm.spring.web.RequestParam"@,
        )
    }
}

fn mapping_rule_exec(k: usize) -> (r: (&'static str, &'static str, &'static str))
    requires
        k < MAPPING_COUNT,
    ensures
        (r.0@, r.1@, r.2@) == mapping_rule(k as int),
{
    if k == 0 {
        (
            "org.springframework.boot.autoconfigure.SpringBootApplication",
            "@RustJVMApplication",
            "rustjvm.spring.RustJVMApplication",
        )
    } else if k == 1 {
        (
            "org.springframework.stereotype.Service",
            "@Service",
            "rustjvm.spring.context.Service",
        )
    } else if k == 2 {
        (
            "org.springframework.stereotype.Component",
            "@Component",
            "rustjvm.spring.context.Component",
        )
    } else if k == 3 {
        (
            "org.springframework.beans.factory.annotation.Autowired",
            "@Autowired",
            "rustjvm.spring.context.Autowired",
        )
    } else if k == 4 {
        (
            "org.springframework.context.annotation.Configuration",
            "@Configuration",
            "rustjvm.spring.context.Configuration",
        )
    } else if k == 5 {
        (
            "org.springframework.context.annotation.Bean",
            "@Bean",
            "rustjvm.spring.context.Bean",
        )
    } else if k == 6 {
        (
            "org.springframework.context.annotation.Scope",
            "@Scope",
            "rustjvm.spring.context.Scope",
        )
    } else if k == 7 {
        (
            "org.springframework.context.annotation.ComponentScan",
            "@ComponentScan",
            "rustjvm.spring.context.ComponentScan",
        )
    } else if k == 8 {
        (
            "org.springframework.web.bind.annotation.RestController",
            "@RestController",
            "rustjvm.spring.web.RestController",
        )
    } else if k == 9 {
        (
            "org.springframework.web.bind.annotation.GetMapping",
            "@GetMapping",
            "rustjvm.spring.web.GetMapping",
        )
    } else if k == 10 {
        (
            "org.springframework.web.bind.annotation.PostMapping",
            "@PostMapping",
            "rustjvm.spring.web.PostMapping",
        )
    } else if k == 11 {
        (
            "org.springframework.web.bind.annotation.RequestMapping",
            "@RequestMapping",
            "rustjvm.spring.web.RequestMapping",
        )
    } else {
        (
            "org.springframework.web.bind.annotation.RequestParam",
            "@RequestParam",
            "rustjvm.spring.web.RequestParam",
        )
    }
}

/// Index of the last `.` among the first `i` characters of `s`, or -1.
pub open spec fn last_dot_before(s: Seq<char>, i: int) -> int
    decreases i,
{
    if i <= 0 || i > s.len() {
        -1
    } else if s[i - 1] == '.' {
        i - 1
    } else {
        last_dot_before(s, i - 1)
    }
}

/// What follows the last `.` of `s` (all of `s` when it has none).
pub open spec fn last_segment(s: Seq<char>) -> Seq<char> {
    s.skip(last_dot_before(s, s.len() as int) + 1)
}

pub proof fn lemma_last_dot_range(s: Seq<char>, i: int)
    ensures
        -1 <= last_dot_before(s, i) < s.len(),
        0 <= i <= s.len() ==> last_dot_before(s, i) < i,
    decreases i,
{
    if i > 0 && i <= s.len() && s[i - 1] != '.' {
        lemma_last_dot_range(s, i - 1);
    }
}

/// What follows the last `.` of a dotted name.
pub fn last_segment_exec(s: &str) -> (r: String)
    ensures
        r@ == last_segment(s@),
{
    let cs = chars_of(s);
    let mut i: usize = cs.len();
    while i > 0 && cs[i - 1] != '.'
        invariant
            i <= cs@.len(),
            cs@ == s@,
            last_dot_before(s@, s@.len() as int) == last_dot_before(s@, i as int),
        decreases i,
    {
        i = i - 1;
    }
    proof {
        lemma_last_dot_range(s@, i as int);
    }
    string_of_range(&cs, i, cs.len())
}

/// `s` with every non-overlapping occurrence of the non-empty `p`, taken
/// from the left, replaced by `r`: what `str::replace` gives.
pub open spec fn replaced(s: Seq<char>, p: Seq<char>, r: Seq<char>) -> Seq<char>
    decreases s.len(),
{
    if s.len() == 0 {
        s
    } else if p.len() > 0 && is_prefix(p, s) {
        r + replaced(s.skip(p.len() as int), p, r)
    } else {
        seq![s[0]] + replaced(s.drop_first(), p, r)
    }
}

proof fn lemma_prefix_at(s: Seq<char>, p: Seq<char>, i: int)
    requires
        0 <= i <= s.len(),
    ensures
        is_prefix(p, s.skip(i)) == occurs_at(p, s, i),
{
    if i + p.len() <= s.len() {
        assert(s.skip(i).take(p.len() as int) =~= s.subrange(i, i + p.len()));
    }
}

/// Replaces every occurrence of `p` in `s` by `r`.
pub fn replace_all(s: &str, p: &str, r: &str) -> (out: String)
    requires
        p@.len() > 0,
    ensures
        out@ == replaced(s@, p@, r@),
{
    let cs = chars_of(s);
    let ps = chars_of(p);
    let mut out = new_string();
    let mut i: usize = 0;
    assert(s@.skip(0) =~= s@);
    while i < cs.len()
        invariant
            i <= cs@.len(),
            cs@ == s@,
            ps@ == p@,
            p@.len() > 0,
            out@ + replaced(s@.skip(i as int), p@, r@) == replaced(s@, p@, r@),
        decreases cs.len() - i,
    {
        let ghost rest = s@.skip(i as int);
        let ghost o = out@;
        proof {
            lemma_prefix_at(s@, p@, i as int);
        }
        if chars_occur_at(ps.as_slice(), cs.as_slice(), i) {
            assert(rest.skip(p@.len() as int) =~= s@.skip(i + p@.len()));
            push_str(&mut out, r);
            assert(o + (r@ + replaced(rest.skip(p@.len() as int), p@, r@)) =~= out@ + replaced(
                s@.skip(i + p@.len()),
                p@,
                r@,
            ));
            i = i + ps.len();
        } else {
            assert(rest.drop_first() =~= s@.skip(i + 1));
            push_char(&mut out, cs[i]);
            assert(o + (seq![rest[0]] + replaced(rest.drop_first(), p@, r@)) =~= out@ + replaced(
                s@.skip(i + 1),
                p@,
                r@,
            ));
            i = i + 1;
        }
    }
    assert(s@.skip(cs@.len() as int) =~= Seq::<char>::empty());
    assert(out@ + Seq::<char>::empty() =~= out@);
    out
}

/// A character that continues an identifier.
pub open spec fn word_char(c: char) -> bool {
    char_alphanumeric(c) || c == '_'
}

/// `rest` does not continue the identifier that precedes it.
pub open spec fn at_boundary(rest: Seq<char>) -> bool {
    rest.len() == 0 || !word_char(rest[0])
}

/// `s` with each `needle` that ends at a word boundary replaced by `@to`,
/// occurrences taken from the left without overlap.
pub open spec fn needles_replaced(s: Seq<char>, needle: Seq<char>, to: Seq<char>) -> Seq<char>
    decreases s.len(),
{
    if s.len() == 0 {
        s
    } else if needle.len() > 0 && is_prefix(needle, s) {
        let after = s.skip(needle.len() as int);
        (if at_boundary(after) {
            seq!['@'] + to
        } else {
            needle
        }) + needles_replaced(after, needle, to)
    } else {
        seq![s[0]] + needles_replaced(s.drop_first(), needle, to)
    }
}

/// `src` with the annotation `@from` renamed to `@to` at its usage sites.
pub open spec fn annotation_replaced(src: Seq<char>, from: Seq<char>, to: Seq<char>) -> Seq<
    char,
> {
    needles_replaced(src, seq!['@'] + from, to)
}

/// Replaces `@from` with `@to` at usage sites; an occurrence followed by a
/// letter, digit or `_` (`@Service` in `@ServiceBus`) is kept.
pub fn replace_annotation(src: &str, from: &str, to: &str) -> (r: String)
    ensures
        r@ == annotation_replaced(src@, from@, to@),
{
    let cs = chars_of(src);
    let mut needle = string_of("@");
    push_str(&mut needle, from);
    proof {
        reveal_strlit("@");
    }
    let ns = chars_of(needle.as_str());
    let ghost nd = ns@;
    assert(nd =~= seq!['@'] + from@);
    let mut out = new_string();
    let mut i: usize = 0;
    assert(src@.skip(0) =~= src@);
    while i < cs.len()
        invariant
            i <= cs@.len(),
            cs@ == src@,
            ns@ == nd,
            needle@ == nd,
            nd == seq!['@'] + from@,
            out@ + needles_replaced(src@.skip(i as int), nd, to@) == annotation_replaced(
                src@,
                from@,
                to@,
            ),
        decreases cs.len() - i,
    {
        let ghost rest = src@.skip(i as int);
        let ghost o = out@;
        proof {
            lemma_prefix_at(src@, nd, i as int);
        }
        if chars_occur_at(ns.as_slice(), cs.as_slice(), i) {
            let j = i + ns.len();
            let ghost after = rest.skip(nd.len() as int);
            assert(after =~= src@.skip(j as int));
            let boundary = if j < cs.len() {
                let c = cs[j];
                assert(after[0] == c);
                !(is_alphanumeric(c) || c == '_')
            } else {
                true
            };
            assert(boundary == at_boundary(after));
            if boundary {
                push_char(&mut out, '@');
                push_str(&mut out, to);
                assert(out@ =~= o + (seq!['@'] + to@));
            } else {
                push_str(&mut out, needle.as_str());
            }
            let ghost piece = if at_boundary(after) {
                seq!['@'] + to@
            } else {
                nd
            };
            assert(out@ == o + piece);
            assert(o + (piece + needles_replaced(after, nd, to@)) =~= out@ + needles_replaced(
                src@.skip(j as int),
                nd,
                to@,
            ));
            i = j;
        } else {
            assert(rest.drop_first() =~= src@.skip(i + 1));
            push_char(&mut out, cs[i]);
            assert(o + (seq![rest[0]] + needles_replaced(rest.drop_first(), nd, to@)) =~= out@
                + needles_replaced(src@.skip(i + 1), nd, to@));
            i = i + 1;
        }
    }
    assert(src@.skip(cs@.len() as int) =~= Seq::<char>::empty());
    assert(out@ + Seq::<char>::empty() =~= out@);
    out
}

/// A `package ...;` line.
pub open spec fn package_line(l: Seq<char>) -> bool {
    is_prefix("package "@, trim_start(l)) && is_suffix(";"@, trim_end(l))
}

/// Index of the first `package` line at or after `i`.
pub open spec fn first_package_line(ls: Seq<Seq<char>>, i: int) -> Option<int>
    decreases ls.len() - i,
{
    if i < 0 || i >= ls.len() {
        None
    } else if package_line(ls[i]) {
        Some(i)
    } else {
        first_package_line(ls, i + 1)
    }
}

/// The lines with `line` put after the first `package` line, followed by
/// a blank line, or at the top when there is none.
pub open spec fn lines_with_import(ls: Seq<Seq<char>>, line: Seq<char>) -> Seq<Seq<char>> {
    match first_package_line(ls, 0) {
        Some(j) => ls.take(j + 1) + seq![Seq::<char>::empty(), line] + ls.skip(j + 1),
        None => seq![line] + ls,
    }
}

pub open spec fn ends_with_newline(s: Seq<char>) -> bool {
    s.len() > 0 && s.last() == '\n'
}

/// `src` with `import <import>;` inserted after its `package` line.
pub open spec fn import_inserted(src: Seq<char>, import: Seq<char>) -> Seq<char> {
    let joined = join(lines_with_import(lines_of(src), "import "@ + import + ";"@), "\n"@);
    if ends_with_newline(src) && !ends_with_newline(joined) {
        joined.push('\n')
    } else {
        joined
    }
}

fn is_package_line(l: &Vec<char>) -> (r: bool)
    ensures
        r == package_line(l@),
{
    let a = trim_start_chars(l.as_slice());
    let b = trim_end_chars(l.as_slice());
    let p = chars_of("package ");
    let q = chars_of(";");
    crate::text::starts_with_chars(a.as_slice(), p.as_slice())
        && crate::text::ends_with_chars(b.as_slice(), q.as_slice())
}

fn push_lines(out: &mut Vec<String>, ls: &Vec<Vec<char>>, a: usize, b: usize)
    requires
        a <= b <= ls@.len(),
    ensures
        final(out).deep_view() == old(out).deep_view() + ls.deep_view().subrange(a as int, b as int),
{
    let ghost o = out.deep_view();
    let mut k: usize = a;
    assert(o + ls.deep_view().subrange(a as int, a as int) =~= o);
    while k < b
        invariant
            a <= k <= b <= ls@.len(),
            out.deep_view() == o + ls.deep_view().subrange(a as int, k as int),
        decreases b - k,
    {
        let line = string_from_chars(ls[k].as_slice());
        assert(ls@[k as int].deep_view() =~= ls@[k as int]@);
        assert(ls.deep_view()[k as int] == ls@[k as int].deep_view());
        push_dv(out, line);
        assert(out.deep_view() =~= o + ls.deep_view().subrange(a as int, k + 1));
        k = k + 1;
    }
}

fn find_package_line(ls: &Vec<Vec<char>>) -> (r: Option<usize>)
    ensures
        r matches Some(j) ==> first_package_line(ls.deep_view(), 0) == Some(j as int),
        r matches Some(j) ==> j < ls@.len(),
        r is None ==> first_package_line(ls.deep_view(), 0) is None,
{
    let ghost lm = ls.deep_view();
    let mut j: usize = 0;
    while j < ls.len()
        invariant
            j <= ls@.len(),
            lm == ls.deep_view(),
            first_package_line(lm, 0) == first_package_line(lm, j as int),
        decreases ls.len() - j,
    {
        assert(ls@[j as int].deep_view() =~= ls@[j as int]@);
        assert(lm[j as int] == ls@[j as int].deep_view());
        if is_package_line(&ls[j]) {
            return Some(j);
        }
        j = j + 1;
    }
    None
}

/// Inserts an import right after the `package ...;` line (or at the top).
pub fn insert_import(src: &str, import: &str) -> (r: String)
    ensures
        r@ == import_inserted(src@, import@),
{
    let mut line = string_of("import ");
    push_str(&mut line, import);
    push_str(&mut line, ";");
    let ls = lines(src);
    let ghost lm = ls.deep_view();
    let found = find_package_line(&ls);
    let mut out: Vec<String> = Vec::new();
    assert(out.deep_view() =~= Seq::<Seq<char>>::empty());
    if let Some(j) = found {
        let n = ls.len();
        assert(j < n);
        push_lines(&mut out, &ls, 0, j + 1);
        push_dv(&mut out, new_string());
        push_dv(&mut out, line);
        push_lines(&mut out, &ls, j + 1, ls.len());
        assert(out.deep_view() =~= lines_with_import(lm, "import "@ + import@ + ";"@));
    } else {
        push_dv(&mut out, line);
        push_lines(&mut out, &ls, 0, ls.len());
        assert(out.deep_view() =~= lines_with_import(lm, "import "@ + import@ + ";"@));
    }
    let mut joined = join_strings(&out, "\n");
    let sc = chars_of(src);
    let jc = chars_of(joined.as_str());
    proof {
        reveal_strlit("\n");
    }
    if sc.len() > 0 && sc[sc.len() - 1] == '\n' && !(jc.len() > 0 && jc[jc.len() - 1] == '\n') {
        push_char(&mut joined, '\n');
    }
    joined
}

/// What happened to one source file.
#[derive(Debug)]
pub struct SourceConversion {
    pub source: String,
    pub changes: Vec<String>,
}

/// The state of a conversion after some of the mapping rules.
pub struct ConversionState {
    pub source: Seq<char>,
    pub changes: Seq<Seq<char>>,
    pub pending_imports: Seq<Seq<char>>,
}

pub open spec fn import_line(name: Seq<char>) -> Seq<char> {
    "import "@ + name + ";"@
}

pub open spec fn change_note(from: Seq<char>, to: Seq<char>, import_to: Seq<char>) -> Seq<char> {
    to + " (import "@ + from + " → "@ + import_to + ")"@
}

/// Mapping rule `k` applied to a conversion state.
pub open spec fn apply_rule(st: ConversionState, k: int) -> ConversionState {
    let (from, to, import_to) = mapping_rule(k);
    let simple_from = last_segment(from);
    let simple_to = trim_start_char(to, '@');
    let had_import = contains_seq(st.source, import_line(from));
    let uses_annotation = contains_seq(st.source, seq!['@'] + simple_from);
    if !had_import && !uses_annotation {
        st
    } else {
        let s1 = if had_import {
            replaced(st.source, import_line(from), import_line(import_to))
        } else {
            st.source
        };
        let pending = if !had_import && simple_from != simple_to {
            st.pending_imports.push(import_to)
        } else {
            st.pending_imports
        };
        let s2 = if simple_from != simple_to {
            annotation_replaced(s1, simple_from, simple_to)
        } else {
            s1
        };
        ConversionState {
            source: s2,
            changes: st.changes.push(change_note(from, to, import_to)),
            pending_imports: pending,
        }
    }
}

/// Rule `rule` maps the Spring annotation `pkg.n` to the RustJVM
/// annotation of the same simple name `n`, imported from
/// `rustjvm.spring.web` for Spring's web annotations and from
/// `rustjvm.spring.context` for the others.
pub open spec fn rule_keeps_name(rule: (Seq<char>, Seq<char>, Seq<char>), pkg: Seq<char>, n: Seq<char>) -> bool {
    &&& n.len() > 0
    &&& forall|i: int| 0 <= i < n.len() ==> #[trigger] n[i] != '.' && n[i] != '@'
    &&& rule.0 == pkg + "."@ + n
    &&& rule.1 == "@"@ + n
    &&& rule.2 == (if pkg == "org.springframework.web.bind.annotation"@ {
        "rustjvm.spring.web."@
    } else {
        "rustjvm.spring.context."@
    }) + n
}

/// Every mapping rule but the application one keeps the annotation's
/// simple name: `org.springframework...PostMapping` becomes `@PostMapping`
/// imported from `rustjvm.spring.web.PostMapping`, and so on.
pub proof fn lemma_rules_keep_names(k: int)
    requires
        1 <= k < MAPPING_COUNT,
    ensures
        exists|pkg: Seq<char>, n: Seq<char>| #[trigger] rule_keeps_name(mapping_rule(k), pkg, n),
{
    let rule = mapping_rule(k);
    reveal_strlit(".");
    reveal_strlit("@");
    reveal_strlit("rustjvm.spring.web.");
    reveal_strlit("rustjvm.spring.context.");
    reveal_strlit("org.springframework.web.bind.annotation");
    if k == 1 {
        reveal_strlit("org.springframework.stereotype.Service");
        reveal_strlit("@Service");
        reveal_strlit("rustjvm.spring.context.Service");
        reveal_strlit("org.springframework.stereotype");
        reveal_strlit("Service");
        let pkg = "org.springframework.stereotype"@;
        let n = "Service"@;
        assert(rule.0 =~= pkg + "."@ + n);
        assert(rule.1 =~= "@"@ + n);
        assert(rule.2 =~= "rustjvm.spring.context."@ + n);
        assert(rule_keeps_name(rule, pkg, n));
    } else if k == 2 {
        reveal_strlit("org.springframework.stereotype.Component");
        reveal_strlit("@Component");
        reveal_strlit("rustjvm.spring.context.Component");
        reveal_strlit("org.springframework.stereotype");
        reveal_strlit("Component");
        let pkg = "org.springframework.stereotype"@;
        let n = "Component"@;
        assert(rule.0 =~= pkg + "."@ + n);
        assert(rule.1 =~= "@"@ + n);
        assert(rule.2 =~= "rustjvm.spring.context."@ + n);
        assert(rule_keeps_name(rule, pkg, n));
    } else if k == 3 {
        reveal_strlit("org.springframework.beans.factory.annotation.Autowired");
        reveal_strlit("@Autowired");
        reveal_strlit("rustjvm.spring.context.Autowired");
        reveal_strlit("org.springframework.beans.factory.annotation");
        reveal_strlit("Autowired");
        let pkg = "org.springframework.beans.factory.annotation"@;
        let n = "Autowired"@;
        assert(rule.0 =~= pkg + "."@ + n);
        assert(rule.1 =~= "@"@ + n);
        assert(rule.2 =~= "rustjvm.spring.context."@ + n);
        assert(rule_keeps_name(rule, pkg, n));
    } else if k == 4 {
        reveal_strlit("org.springframework.context.annotation.Configuration");
        reveal_strlit("@Configuration");
        reveal_strlit("rustjvm.spring.context.Configuration");
        reveal_strlit("org.springframework.context.annotation");
        reveal_strlit("Configuration");
        let pkg = "org.springframework.context.annotation"@;
        let n = "Configuration"@;
        assert(rule.0 =~= pkg + "."@ + n);
        assert(rule.1 =~= "@"@ + n);
        assert(rule.2 =~= "rustjvm.spring.context."@ + n);
        assert(rule_keeps_name(rule, pkg, n));
    } else if k == 5 {
        reveal_strlit("org.springframework.context.annotation.Bean");
        reveal_strlit("@Bean");
        reveal_strlit("rustjvm.spring.context.Bean");
        reveal_strlit("org.springframework.context.annotation");
        reveal_strlit("Bean");
        let pkg = "org.springframework.context.annotation"@;
        let n = "Bean"@;
        assert(rule.0 =~= pkg + "."@ + n);
        assert(rule.1 =~= "@"@ + n);
        assert(rule.2 =~= "rustjvm.spring.context."@ + n);
        assert(rule_keeps_name(rule, pkg, n));
    } else if k == 6 {
        reveal_strlit("org.springframework.context.annotation.Scope");
        reveal_strlit("@Scope");
        reveal_strlit("rustjvm.spring.context.Scope");
        reveal_strlit("org.springframework.context.annotation");
        reveal_strlit("Scope");
        let pkg = "org.springframework.context.annotation"@;
        let n = "Scope"@;
        assert(rule.0 =~= pkg + "."@ + n);
        assert(rule.1 =~= "@"@ + n);
        assert(rule.2 =~= "rustjvm.spring.context."@ + n);
        assert(rule_keeps_name(rule, pkg, n));
    } else if k == 7 {
        reveal_strlit("org.springframework.context.annotation.ComponentScan");
        reveal_strlit("@ComponentScan");
        reveal_strlit("rustjvm.spring.context.ComponentScan");
        reveal_strlit("org.springframework.context.annotation");
        reveal_strlit("ComponentScan");
        let pkg = "org.springframework.context.annotation"@;
        let n = "ComponentScan"@;
        assert(rule.0 =~= pkg + "."@ + n);
        assert(rule.1 =~= "@"@ + n);
        assert(rule.2 =~= "rustjvm.spring.context."@ + n);
        assert(rule_keeps_name(rule, pkg, n));
    } else if k == 8 {
        reveal_strlit("org.springframework.web.bind.annotation.RestController");
        reveal_strlit("@RestController");
        reveal_strlit("rustjvm.spring.web.RestController");
        reveal_strlit("org.springframework.web.bind.annotation");
        reveal_strlit("RestController");
        let pkg = "org.springframework.web.bind.annotation"@;
        let n = "RestController"@;
        assert(rule.0 =~= pkg + "."@ + n);
        assert(rule.1 =~= "@"@ + n);
        assert(rule.2 =~= "rustjvm.spring.web."@ + n);
        assert(rule_keeps_name(rule, pkg, n));
    } else if k == 9 {
        reveal_strlit("org.springframework.web.bind.annotation.GetMapping");
        reveal_strlit("@GetMapping");
        reveal_strlit("rustjvm.spring.web.GetMapping");
        reveal_strlit("org.springframework.web.bind.annotation");
        reveal_strlit("GetMapping");
        let pkg = "org.springframework.web.bind.annotation"@;
        let n = "GetMapping"@;
        assert(rule.0 =~= pkg + "."@ + n);
        assert(rule.1 =~= "@"@ + n);
        assert(rule.2 =~= "rustjvm.spring.web."@ + n);
        assert(rule_keeps_name(rule, pkg, n));
    } else if k == 10 {
        reveal_strlit("org.springframework.web.bind.annotation.PostMapping");
        reveal_strlit("@PostMapping");
        reveal_strlit("rustjvm.spring.web.PostMapping");
        reveal_strlit("org.springframework.web.bind.annotation");
        reveal_strlit("PostMapping");
        let pkg = "org.springframework.web.bind.annotation"@;
        let n = "PostMapping"@;
        assert(rule.0 =~= pkg + "."@ + n);
        assert(rule.1 =~= "@"@ + n);
        assert(rule.2 =~= "rustjvm.spring.web."@ + n);
        assert(rule_keeps_name(rule, pkg, n));
    } else if k == 11 {
        reveal_strlit("org.springframework.web.bind.annotation.RequestMapping");
        reveal_strlit("@RequestMapping");
        reveal_strlit("rustjvm.spring.web.RequestMapping");
        reveal_strlit("org.springframework.web.bind.annotation");
        reveal_strlit("RequestMapping");
        let pkg = "org.springframework.web.bind.annotation"@;
        let n = "RequestMapping"@;
        assert(rule.0 =~= pkg + "."@ + n);
        assert(rule.1 =~= "@"@ + n);
        assert(rule.2 =~= "rustjvm.spring.web."@ + n);
        assert(rule_keeps_name(rule, pkg, n));
    } else if k == 12 {
        reveal_strlit("org.springframework.web.bind.annotation.RequestParam");
        reveal_strlit("@RequestParam");
        reveal_strlit("rustjvm.spring.web.RequestParam");
        reveal_strlit("org.springframework.web.bind.annotation");
        reveal_strlit("RequestParam");
        let pkg = "org.springframework.web.bind.annotation"@;
        let n = "RequestParam"@;
        assert(rule.0 =~= pkg + "."@ + n);
        assert(rule.1 =~= "@"@ + n);
        assert(rule.2 =~= "rustjvm.spring.web."@ + n);
        assert(rule_keeps_name(rule, pkg, n));
    }
}

proof fn lemma_last_dot_split(s: Seq<char>, p: int, i: int)
    requires
        0 <= p < i <= s.len(),
        s[p] == '.',
        forall|q: int| p < q < s.len() ==> s[q] != '.',
    ensures
        last_dot_before(s, i) == p,
    decreases i,
{
    if i - 1 != p {
        lemma_last_dot_split(s, p, i - 1);
    }
}

proof fn lemma_kept_name_simple(rule: (Seq<char>, Seq<char>, Seq<char>), pkg: Seq<char>, n: Seq<char>)
    requires
        rule_keeps_name(rule, pkg, n),
    ensures
        last_segment(rule.0) == n,
        trim_start_char(rule.1, '@') == n,
{
    reveal_strlit(".");
    reveal_strlit("@");
    let s = rule.0;
    let p = pkg.len() as int;
    assert(s[p] == '.');
    assert forall|q: int| p < q < s.len() implies s[q] != '.' by {
        assert(s[q] == n[q - p - 1]);
    }
    lemma_last_dot_split(s, p, s.len() as int);
    assert(s.skip(p + 1) =~= n);
    let t = rule.1;
    assert(t[0] == '@');
    assert(t.drop_first() =~= n);
    assert(n[0] != '@');
    assert(trim_start_char(n, '@') == n);
    assert(trim_start_char(t, '@') == trim_start_char(t.drop_first(), '@'));
}

/// Converting with any rule but the application one edits nothing but the
/// rule's import line: no annotation in the code is renamed, and no import
/// is added.
pub proof fn lemma_rule_edits_only_import(st: ConversionState, k: int)
    requires
        1 <= k < MAPPING_COUNT,
    ensures
        ({
            let (from, to, import_to) = mapping_rule(k);
            &&& apply_rule(st, k).source == if contains_seq(st.source, import_line(from)) {
                replaced(st.source, import_line(from), import_line(import_to))
            } else {
                st.source
            }
            &&& apply_rule(st, k).pending_imports == st.pending_imports
        }),
{
    lemma_rules_keep_names(k);
    let (pkg, n) = choose|pkg: Seq<char>, n: Seq<char>| #[trigger] rule_keeps_name(mapping_rule(k), pkg, n);
    lemma_kept_name_simple(mapping_rule(k), pkg, n);
}

/// The first `n` mapping rules applied, in order, to `src`.
pub open spec fn apply_rules(src: Seq<char>, n: nat) -> ConversionState
    decreases n,
{
    if n == 0 {
        ConversionState { source: src, changes: Seq::empty(), pending_imports: Seq::empty() }
    } else {
        apply_rule(apply_rules(src, (n - 1) as nat), n - 1)
    }
}

/// Each import of `imports` inserted, in order.
pub open spec fn imports_inserted(src: Seq<char>, imports: Seq<Seq<char>>) -> Seq<char>
    decreases imports.len(),
{
    if imports.len() == 0 {
        src
    } else {
        import_inserted(imports_inserted(src, imports.drop_last()), imports.last())
    }
}

/// The source a conversion gives.
pub open spec fn converted_source(src: Seq<char>) -> Seq<char> {
    let st = apply_rules(src, MAPPING_COUNT as nat);
    imports_inserted(st.source, st.pending_imports)
}

/// The changes a conversion reports.
pub open spec fn conversion_changes(src: Seq<char>) -> Seq<Seq<char>> {
    apply_rules(src, MAPPING_COUNT as nat).changes
}

/// Converts one Java source file's Spring annotations/imports to RustJVM
/// equivalents. Unknown Spring annotations are left in place (the analyzer
/// flags them separately).
pub fn convert_source(src: &str) -> (r: SourceConversion)
    ensures
        r.source@ == converted_source(src@),
        r.changes.deep_view() == conversion_changes(src@),
{
    let mut out = string_of(src);
    let mut changes: Vec<String> = Vec::new();
    let mut pending: Vec<String> = Vec::new();
    let mut k: usize = 0;
    assert(changes.deep_view() =~= Seq::<Seq<char>>::empty());
    assert(pending.deep_view() =~= Seq::<Seq<char>>::empty());
    while k < MAPPING_COUNT
        invariant
            k <= MAPPING_COUNT,
            apply_rules(src@, k as nat) == (ConversionState {
                source: out@,
                changes: changes.deep_view(),
                pending_imports: pending.deep_view(),
            }),
        decreases MAPPING_COUNT - k,
    {
        let (from, to, import_to) = mapping_rule_exec(k);
        let simple_from = last_segment_exec(from);
        let to_chars = chars_of(to);
        let simple_to_chars = trim_start_char_exec(to_chars.as_slice(), '@');
        let simple_to = string_from_chars(simple_to_chars.as_slice());
        let mut line_from = string_of("import ");
        push_str(&mut line_from, from);
        push_str(&mut line_from, ";");
        let mut at_from = string_of("@");
        push_str(&mut at_from, simple_from.as_str());
        proof {
            reveal_strlit("import ");
            reveal_strlit(";");
            reveal_strlit("@");
            assert(line_from@ =~= import_line(from@));
            assert(at_from@ =~= seq!['@'] + simple_from@);
        }
        let had_import = contains_str(out.as_str(), line_from.as_str());
        let uses_annotation = contains_str(out.as_str(), at_from.as_str());
        if had_import || uses_annotation {
            let renamed = !str_eq(simple_from.as_str(), simple_to.as_str());
            if had_import {
                let mut line_to = string_of("import ");
                push_str(&mut line_to, import_to);
                push_str(&mut line_to, ";");
                assert(line_to@ =~= import_line(import_to@));
                out = replace_all(out.as_str(), line_from.as_str(), line_to.as_str());
            } else if renamed {
                push_dv(&mut pending, string_of(import_to));
            }
            if renamed {
                out = replace_annotation(out.as_str(), simple_from.as_str(), simple_to.as_str());
            }
            let mut note = string_of(to);
            push_str(&mut note, " (import ");
            push_str(&mut note, from);
            push_str(&mut note, " → ");
            push_str(&mut note, import_to);
            push_str(&mut note, ")");
            proof {
                reveal_strlit(" (import ");
                reveal_strlit(" → ");
                reveal_strlit(")");
                assert(note@ =~= change_note(from@, to@, import_to@));
            }
            push_dv(&mut changes, note);
        }
        k = k + 1;
    }
    let ghost mid = out@;
    let ghost pm = pending.deep_view();
    let mut i: usize = 0;
    assert(pm.take(0) =~= Seq::<Seq<char>>::empty());
    while i < pending.len()
        invariant
            i <= pending@.len(),
            pm == pending.deep_view(),
            out@ == imports_inserted(mid, pm.take(i as int)),
        decreases pending.len() - i,
    {
        out = insert_import(out.as_str(), pending[i].as_str());
        assert(pm.take(i + 1).drop_last() =~= pm.take(i as int));
        i = i + 1;
    }
    assert(pm.take(pm.len() as int) =~= pm);
    SourceConversion { source: out, changes }
}

} // verus!
