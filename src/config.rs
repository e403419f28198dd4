//! The per-build-unit configuration: the domain, the two generation toggles
//! and the target languages, with its plain-text persisted form (one field
//! per line: domain, emit-source flag, emit-binary flag, then one language
//! per line).

use vstd::prelude::*;

verus! {

/// The configuration that every later stage reads.
#[derive(Debug, Clone)]
pub struct Config {
    pub domain: String,
    /// Whether catalog sources are created or updated from the template.
    pub make_po: bool,
    /// Whether catalog sources are compiled into binary catalogs.
    pub make_mo: bool,
    /// The target languages, in configured order.
    pub langs: Vec<String>,
}

pub ghost struct ConfigModel {
    pub domain: Seq<char>,
    pub make_po: bool,
    pub make_mo: bool,
    pub langs: Seq<Seq<char>>,
}

pub open spec fn views(v: Seq<String>) -> Seq<Seq<char>> {
    v.map_values(|s: String| s@)
}

impl View for Config {
    type V = ConfigModel;

    open spec fn view(&self) -> ConfigModel {
        ConfigModel {
            domain: self.domain@,
            make_po: self.make_po,
            make_mo: self.make_mo,
            langs: views(self.langs@),
        }
    }
}

/// Why a configuration could not be read.
#[derive(Debug, Clone, Copy, PartialEq, Eq, Structural)]
pub enum ConfigError {
    /// No configuration was written for this build unit.
    ConfigMissing,
    /// The persisted text lacks a field or holds a flag that is not a boolean.
    Malformed,
}

pub open spec fn flag_text(b: bool) -> Seq<char> {
    if b {
        "true"@
    } else {
        "false"@
    }
}

pub open spec fn flag_value(s: Seq<char>) -> Option<bool> {
    if s == "true"@ {
        Some(true)
    } else if s == "false"@ {
        Some(false)
    } else {
        None
    }
}

/// Each of `ls` followed by a newline.
pub open spec fn joined_lines(ls: Seq<Seq<char>>) -> Seq<char>
    decreases ls.len(),
{
    if ls.len() == 0 {
        Seq::empty()
    } else {
        joined_lines(ls.drop_last()) + ls.last() + "\n"@
    }
}

/// The persisted text of a configuration.
pub open spec fn config_text(c: ConfigModel) -> Seq<char> {
    joined_lines(seq![c.domain, flag_text(c.make_po), flag_text(c.make_mo)] + c.langs)
}

/// Length of the prefix of `s` before its first newline.
pub open spec fn line_len(s: Seq<char>) -> nat
    decreases s.len(),
{
    if s.len() == 0 || s[0] == '\n' {
        0
    } else {
        1 + line_len(s.drop_first())
    }
}

/// The lines of `s`: split at each newline, a carriage return before the
/// newline dropped, and no empty line after a final newline.
pub open spec fn lines(s: Seq<char>) -> Seq<Seq<char>>
    decreases s.len(),
    via lines_decreases
{
    if s.len() == 0 {
        Seq::empty()
    } else {
        let k = line_len(s);
        if k == s.len() {
            seq![s]
        } else {
            let raw = s.subrange(0, k as int);
            let line = if k > 0 && raw.last() == '\r' {
                raw.drop_last()
            } else {
                raw
            };
            seq![line] + lines(s.subrange(k + 1 as int, s.len() as int))
        }
    }
}

proof fn lemma_line_len_bound(s: Seq<char>)
    ensures
        line_len(s) <= s.len(),
    decreases s.len(),
{
    if s.len() > 0 && s[0] != '\n' {
        lemma_line_len_bound(s.drop_first());
    }
}

#[via_fn]
proof fn lines_decreases(s: Seq<char>) {
    lemma_line_len_bound(s);
}

/// What reading the persisted text `s` gives.
pub open spec fn parsed_config(s: Seq<char>) -> Result<ConfigModel, ConfigError> {
    let ls = lines(s);
    if ls.len() < 3 || flag_value(ls[1]) is None || flag_value(ls[2]) is None {
        Err(ConfigError::Malformed)
    } else {
        Ok(
            ConfigModel {
                domain: ls[0],
                make_po: flag_value(ls[1])->0,
                make_mo: flag_value(ls[2])->0,
                langs: ls.subrange(3, ls.len() as int),
            },
        )
    }
}

/// A field that survives the line format: no newline, no final carriage
/// return.
pub open spec fn plain_field(s: Seq<char>) -> bool {
    &&& forall|k: int| 0 <= k < s.len() ==> #[trigger] s[k] != '\n'
    &&& !(s.len() > 0 && s.last() == '\r')
}

pub open spec fn config_result_view(r: Result<Config, ConfigError>) -> Result<
    ConfigModel,
    ConfigError,
> {
    match r {
        Ok(c) => Ok(c@),
        Err(e) => Err(e),
    }
}

proof fn lemma_line_len(q: Seq<char>, m: nat)
    requires
        m <= q.len(),
        forall|k: int| 0 <= k < m ==> #[trigger] q[k] != '\n',
        m == q.len() || q[m as int] == '\n',
    ensures
        line_len(q) == m,
    decreases m,
{
    if m > 0 {
        lemma_line_len(q.drop_first(), (m - 1) as nat);
    }
}

proof fn lemma_joined_front(ls: Seq<Seq<char>>)
    requires
        ls.len() > 0,
    ensures
        joined_lines(ls) == ls[0] + "\n"@ + joined_lines(ls.drop_first()),
    decreases ls.len(),
{
    if ls.len() > 1 {
        lemma_joined_front(ls.drop_last());
        assert(ls.drop_last().drop_first() =~= ls.drop_first().drop_last());
        assert(ls.drop_last()[0] == ls[0]);
    } else {
        assert(ls.drop_last() =~= Seq::<Seq<char>>::empty());
        assert(ls.drop_first() =~= Seq::<Seq<char>>::empty());
    }
}

proof fn lemma_lines_of_joined(ls: Seq<Seq<char>>)
    requires
        forall|i: int| 0 <= i < ls.len() ==> plain_field(#[trigger] ls[i]),
    ensures
        lines(joined_lines(ls)) == ls,
    decreases ls.len(),
{
    reveal_strlit("\n");
    if ls.len() > 0 {
        lemma_joined_front(ls);
        let a = ls[0];
        let rest = joined_lines(ls.drop_first());
        let s = a + "\n"@ + rest;
        assert(plain_field(a));
        lemma_line_len(s, a.len());
        assert(s.subrange(0, a.len() as int) =~= a);
        assert(s.subrange(a.len() as int + 1, s.len() as int) =~= rest);
        lemma_lines_of_joined(ls.drop_first());
        assert(ls =~= seq![a] + ls.drop_first());
    }
}

/// Reading back the text that a configuration was written as gives that
/// configuration, when no field holds a newline or ends in a carriage return.
pub proof fn lemma_config_round_trip(c: ConfigModel)
    requires
        plain_field(c.domain),
        forall|i: int| 0 <= i < c.langs.len() ==> plain_field(#[trigger] c.langs[i]),
    ensures
        parsed_config(config_text(c)) == Ok::<ConfigModel, ConfigError>(c),
{
    reveal_strlit("true");
    reveal_strlit("false");
    let ls = seq![c.domain, flag_text(c.make_po), flag_text(c.make_mo)] + c.langs;
    assert forall|i: int| 0 <= i < ls.len() implies plain_field(#[trigger] ls[i]) by {
        if i >= 3 {
            assert(ls[i] == c.langs[i - 3]);
        }
    }
    lemma_lines_of_joined(ls);
    assert(ls.subrange(3, ls.len() as int) =~= c.langs);
}

/// The lines of `text`, as `lines` describes them.
pub fn split_lines(text: &str) -> (r: Vec<String>)
    ensures
        views(r@) == lines(text@),
{
    let ghost p = text@;
    let n = text.unicode_len();
    let mut out: Vec<String> = Vec::new();
    let mut i: usize = 0;
    assert(p.subrange(0, n as int) =~= p);
    assert(views(out@) + lines(p) =~= lines(p));
    while i < n
        invariant
            p == text@,
            n == p.len(),
            i <= n,
            views(out@) + lines(p.subrange(i as int, n as int)) == lines(p),
        decreases n - i,
    {
        let ghost q = p.subrange(i as int, n as int);
        let mut j = i;
        while j < n && text.get_char(j) != '\n'
            invariant
                i <= j <= n,
                n == p.len(),
                p == text@,
                forall|k: int| i <= k < j ==> #[trigger] p[k] != '\n',
            decreases n - j,
        {
            j = j + 1;
        }
        proof {
            lemma_line_len(q, (j - i) as nat);
        }
        let mut end = j;
        if j < n && j > i && text.get_char(j - 1) == '\r' {
            end = j - 1;
        }
        let line = String::from_str(text.substring_char(i, end));
        let ghost old_out = out@;
        out.push(line);
        proof {
            assert(views(out@) =~= views(old_out) + seq![line@]);
            if j == n {
                assert(q.subrange(0, (j - i) as int) =~= q);
                assert(line@ =~= q);
                assert(lines(q) =~= seq![q]);
                assert(p.subrange(n as int, n as int) =~= Seq::<char>::empty());
                assert(views(out@) + lines(p.subrange(n as int, n as int)) =~= views(old_out)
                    + lines(q));
            } else {
                let raw = q.subrange(0, (j - i) as int);
                if j > i && raw.last() == '\r' {
                    assert(line@ =~= raw.drop_last());
                } else {
                    assert(line@ =~= raw);
                }
                assert(q.subrange((j - i + 1) as int, q.len() as int) =~= p.subrange(
                    j + 1,
                    n as int,
                ));
                assert(views(out@) + lines(p.subrange(j + 1, n as int)) =~= views(old_out)
                    + lines(q));
            }
        }
        if j < n {
            i = j + 1;
        } else {
            i = n;
        }
    }
    assert(p.subrange(n as int, n as int) =~= Seq::<char>::empty());
    assert(views(out@) =~= views(out@) + lines(p.subrange(n as int, n as int)));
    out
}

fn parse_flag(s: &String) -> (r: Option<bool>)
    ensures
        r == flag_value(s@),
{
    let t = String::from_str("true");
    let f = String::from_str("false");
    if *s == t {
        Some(true)
    } else if *s == f {
        Some(false)
    } else {
        None
    }
}

fn push_line(out: &mut String, line: &str)
    ensures
        final(out)@ == old(out)@ + line@ + "\n"@,
{
    out.append(line);
    out.append("\n");
}

fn flag_str(b: bool) -> (r: &'static str)
    ensures
        r@ == flag_text(b),
{
    if b {
        "true"
    } else {
        "false"
    }
}

impl Config {
    /// The persisted text of this configuration.
    pub fn to_text(&self) -> (r: String)
        ensures
            r@ == config_text(self@),
    {
        let ghost fields = seq![self.domain@, flag_text(self.make_po), flag_text(self.make_mo)];
        let mut out = String::new();
        push_line(&mut out, self.domain.as_str());
        push_line(&mut out, flag_str(self.make_po));
        push_line(&mut out, flag_str(self.make_mo));
        proof {
            let f1 = seq![self.domain@];
            let f2 = seq![self.domain@, flag_text(self.make_po)];
            assert(f1.drop_last() =~= Seq::<Seq<char>>::empty());
            assert(f2.drop_last() =~= f1);
            assert(fields.drop_last() =~= f2);
            assert(joined_lines(f1.drop_last()) == Seq::<char>::empty());
            assert(joined_lines(f1) =~= self.domain@ + "\n"@);
            assert(joined_lines(f2) == joined_lines(f1) + flag_text(self.make_po) + "\n"@);
            assert(joined_lines(fields) == joined_lines(f2) + flag_text(self.make_mo) + "\n"@);
            assert(out@ =~= joined_lines(fields));
        }
        let mut i: usize = 0;
        while i < self.langs.len()
            invariant
                i <= self.langs@.len(),
                fields == seq![self.domain@, flag_text(self.make_po), flag_text(self.make_mo)],
                out@ == joined_lines(fields + views(self.langs@).subrange(0, i as int)),
            decreases self.langs@.len() - i,
        {
            push_line(&mut out, self.langs[i].as_str());
            proof {
                let s = fields + views(self.langs@).subrange(0, i + 1);
                assert(s.drop_last() =~= fields + views(self.langs@).subrange(0, i as int));
            }
            i = i + 1;
        }
        assert(views(self.langs@).subrange(0, i as int) =~= views(self.langs@));
        out
    }

    /// Reads a configuration back from its persisted text.
    pub fn from_text(text: &str) -> (r: Result<Config, ConfigError>)
        ensures
            config_result_view(r) == parsed_config(text@),
    {
        let mut ls = split_lines(text);
        if ls.len() < 3 {
            return Err(ConfigError::Malformed);
        }
        let make_po = match parse_flag(&ls[1]) {
            Some(b) => b,
            None => {
                return Err(ConfigError::Malformed);
            },
        };
        let make_mo = match parse_flag(&ls[2]) {
            Some(b) => b,
            None => {
                return Err(ConfigError::Malformed);
            },
        };
        let ghost all = ls@;
        let langs = ls.split_off(3);
        let domain = ls.swap_remove(0);
        proof {
            assert(views(langs@) =~= views(all).subrange(3, all.len() as int));
        }
        Ok(Config { domain, make_po, make_mo, langs })
    }
}

/// The text of a domain file: each language followed by a newline.
pub fn languages_text(langs: &[String]) -> (r: String)
    ensures
        r@ == joined_lines(views(langs@)),
{
    let mut out = String::new();
    let mut i: usize = 0;
    while i < langs.len()
        invariant
            i <= langs@.len(),
            out@ == joined_lines(views(langs@).subrange(0, i as int)),
        decreases langs@.len() - i,
    {
        push_line(&mut out, langs[i].as_str());
        proof {
            let s = views(langs@).subrange(0, i + 1);
            assert(s.drop_last() =~= views(langs@).subrange(0, i as int));
        }
        i = i + 1;
    }
    assert(views(langs@).subrange(0, i as int) =~= views(langs@));
    out
}

} // verus!
