//! The message registry: template entries, their text form, and the rule that
//! keeps one entry per `(message id, context)` pair.

use vstd::prelude::*;
use vstd::std_specs::iter::IteratorSpec;

verus! {

/// Where a translatable message was found in the program text.
#[derive(Debug, Clone)]
pub struct SourceLocation {
    pub file: String,
    pub line: u32,
}

/// One call site's message, as extracted at build time.
#[derive(Debug, Clone)]
pub struct MessageRecord {
    /// The message text; `None` when the call site does not give a literal.
    pub content: Option<String>,
    pub context: Option<String>,
    pub plural: Option<String>,
    pub location: Option<SourceLocation>,
}

/// One stanza of the template.
#[derive(Debug, Clone)]
pub struct TemplateEntry {
    pub location: Option<SourceLocation>,
    pub context: Option<String>,
    pub id: String,
    pub plural: Option<String>,
}

pub open spec fn opt_view(o: Option<String>) -> Option<Seq<char>> {
    match o {
        Some(s) => Some(s@),
        None => None,
    }
}

pub open spec fn digit_char(d: nat) -> char {
    seq!['0', '1', '2', '3', '4', '5', '6', '7', '8', '9'][d as int]
}

/// The decimal form of `n`, without leading zeros.
pub open spec fn decimal(n: nat) -> Seq<char>
    decreases n,
{
    if n < 10 {
        seq![digit_char(n)]
    } else {
        decimal(n / 10) + seq![digit_char(n % 10)]
    }
}

/// Where the path component of `f` that starts at `i` ends: the next `/`,
/// or the end of `f`.
pub open spec fn component_end(f: Seq<char>, i: int) -> int
    decreases f.len() - i,
{
    if i < 0 || i >= f.len() || f[i] == '/' {
        i
    } else {
        component_end(f, i + 1)
    }
}

/// The depth below the start after the component `f[i..e]`, from `depth`:
/// `..` goes up, an empty component or `.` stays, a name goes down.
pub open spec fn depth_after(f: Seq<char>, i: int, e: int, depth: int) -> int {
    if e - i == 2 && f[i] == '.' && f[i + 1] == '.' {
        depth - 1
    } else if e - i == 0 || (e - i == 1 && f[i] == '.') {
        depth
    } else {
        depth + 1
    }
}

/// Following the components of `f` from position `i` at `depth` goes above
/// the start.
pub open spec fn climbs_out(f: Seq<char>, i: int, depth: int) -> bool
    decreases f.len() - i,
    via climbs_out_decreases
{
    if i < 0 || i > f.len() {
        false
    } else {
        let e = component_end(f, i);
        let d = depth_after(f, i, e, depth);
        if d < 0 {
            true
        } else if e >= f.len() {
            false
        } else {
            climbs_out(f, e + 1, d)
        }
    }
}

proof fn lemma_component_end(f: Seq<char>, i: int)
    requires
        0 <= i <= f.len(),
    ensures
        i <= component_end(f, i) <= f.len(),
    decreases f.len() - i,
{
    if i < f.len() && f[i] != '/' {
        lemma_component_end(f, i + 1);
    }
}

#[via_fn]
proof fn climbs_out_decreases(f: Seq<char>, i: int, depth: int) {
    if 0 <= i <= f.len() {
        lemma_component_end(f, i);
    }
}

/// A path lies inside the build tree when it is relative and none of its
/// `..` components climbs above the start.
pub open spec fn in_tree(f: Seq<char>) -> bool {
    &&& !(f.len() > 0 && f[0] == '/')
    &&& !climbs_out(f, 0, 0)
}

/// `#: file:line` followed by a newline, for a location inside the tree.
pub open spec fn location_text(loc: Option<SourceLocation>) -> Seq<char> {
    match loc {
        Some(l) => if in_tree(l.file@) {
            "#: "@ + l.file@ + ":"@ + decimal(l.line as nat) + "\n"@
        } else {
            Seq::empty()
        },
        None => Seq::empty(),
    }
}

/// `msgctxt "<context>"` and a newline, when there is a context.
pub open spec fn context_text(ctx: Option<Seq<char>>) -> Seq<char> {
    match ctx {
        Some(c) => "msgctxt \""@ + c + "\"\n"@,
        None => Seq::empty(),
    }
}

/// The text by which an entry for `(id, ctx)` is recognised in a template.
pub open spec fn marker_text(id: Seq<char>, ctx: Option<Seq<char>>) -> Seq<char> {
    context_text(ctx) + "msgid \""@ + id + "\""@
}

/// What follows the marker: the plural id, if any, and empty translations.
pub open spec fn tail_text(plural: Option<Seq<char>>) -> Seq<char> {
    match plural {
        Some(p) => "\nmsgid_plural \""@ + p + "\"\nmsgstr[0] \"\"\nmsgstr[1] \"\"\n"@,
        None => "\nmsgstr \"\"\n"@,
    }
}

/// The stanza of an entry, opened by a blank line.
pub open spec fn stanza_text(e: TemplateEntry) -> Seq<char> {
    "\n"@ + location_text(e.location) + marker_text(e.id@, opt_view(e.context)) + tail_text(
        opt_view(e.plural),
    )
}

/// Position `i` of `s` starts a line.
pub open spec fn line_starts_at(s: Seq<char>, i: int) -> bool {
    i == 0 || (0 < i <= s.len() && s[i - 1] == '\n')
}

/// Position `e` of `s` ends a line.
pub open spec fn line_ends_at(s: Seq<char>, e: int) -> bool {
    e == s.len() || (0 <= e < s.len() && s[e] == '\n')
}

/// `t` stands in `s` at `i` as whole lines.
pub open spec fn lines_at(s: Seq<char>, t: Seq<char>, i: int) -> bool {
    &&& 0 <= i
    &&& i + t.len() <= s.len()
    &&& s.subrange(i, i + t.len()) == t
    &&& line_starts_at(s, i)
    &&& line_ends_at(s, i + t.len())
}

/// The line just before the line that starts at `i` is a `msgctxt` line.
pub open spec fn after_context_line(s: Seq<char>, i: int) -> bool {
    exists|j: int|
        0 <= j && j + 7 < i && line_starts_at(s, j) && #[trigger] s.subrange(j, j + 7)
            == "msgctxt"@ && (forall|k: int| j <= k < i - 1 ==> s[k] != '\n')
}

/// The template text `s` holds an entry for `(id, ctx)`: with a context, its
/// `msgctxt` line directly followed by its `msgid` line; without one, its
/// `msgid` line not preceded by a `msgctxt` line.
pub open spec fn holds_entry(s: Seq<char>, id: Seq<char>, ctx: Option<Seq<char>>) -> bool {
    match ctx {
        Some(_) => exists|i: int| #[trigger] lines_at(s, marker_text(id, ctx), i),
        None => exists|i: int|
            #[trigger] lines_at(s, marker_text(id, ctx), i) && !after_context_line(s, i),
    }
}

/// A record carries translatable text: a literal that is not empty.
pub open spec fn registrable(m: MessageRecord) -> bool {
    m.content is Some && m.content->0@.len() > 0
}

pub open spec fn entry_of(m: MessageRecord) -> TemplateEntry {
    TemplateEntry {
        location: m.location,
        context: m.context,
        id: m.content->0,
        plural: m.plural,
    }
}

fn clone_opt(o: &Option<String>) -> (r: Option<String>)
    ensures
        r == *o,
{
    match o {
        Some(s) => Some(s.clone()),
        None => None,
    }
}

fn clone_location(o: &Option<SourceLocation>) -> (r: Option<SourceLocation>)
    ensures
        r == *o,
{
    match o {
        Some(l) => Some(SourceLocation { file: l.file.clone(), line: l.line }),
        None => None,
    }
}

/// Appends the decimal form of `n` to `out`.
fn push_decimal(out: &mut String, n: u32)
    ensures
        final(out)@ == old(out)@ + decimal(n as nat),
    decreases n,
{
    let digits = "0123456789";
    proof {
        reveal_strlit("0123456789");
    }
    if n >= 10 {
        push_decimal(out, n / 10);
    }
    let d = (n % 10) as usize;
    let ghost mid = out@;
    out.append(digits.substring_char(d, d + 1));
    assert(digits@.subrange(d as int, d + 1) =~= seq![digit_char(d as nat)]);
    if n >= 10 {
        assert(mid + seq![digit_char(d as nat)] =~= old(out)@ + decimal(n as nat));
    } else {
        assert(mid =~= old(out)@);
    }
}

fn is_in_tree(f: &str) -> (r: bool)
    ensures
        r == in_tree(f@),
{
    let c = chars_of(f);
    let n = c.len();
    if n > 0 && c[0] == '/' {
        return false;
    }
    let mut i: usize = 0;
    let mut depth: usize = 0;
    loop
        invariant
            i <= n,
            n == c@.len(),
            c@ == f@,
            depth <= i,
            !(n > 0 && c@[0] == '/'),
            climbs_out(c@, 0, 0) == climbs_out(c@, i as int, depth as int),
        decreases n - i,
    {
        let mut e = i;
        while e < n && c[e] != '/'
            invariant
                i <= e <= n,
                n == c@.len(),
                component_end(c@, i as int) == component_end(c@, e as int),
            decreases n - e,
        {
            e = e + 1;
        }
        let len = e - i;
        if len == 2 && c[i] == '.' && c[i + 1] == '.' {
            if depth == 0 {
                return false;
            }
            depth = depth - 1;
        } else if len == 0 || (len == 1 && c[i] == '.') {
        } else {
            depth = depth + 1;
        }
        if e >= n {
            return true;
        }
        i = e + 1;
    }
}

fn push_location(out: &mut String, loc: &Option<SourceLocation>)
    ensures
        final(out)@ == old(out)@ + location_text(*loc),
{
    match loc {
        Some(l) => {
            if is_in_tree(l.file.as_str()) {
                out.append("#: ");
                out.append(l.file.as_str());
                out.append(":");
                push_decimal(out, l.line);
                out.append("\n");
                assert(out@ =~= old(out)@ + location_text(*loc));
            } else {
                assert(out@ =~= old(out)@ + location_text(*loc));
            }
        },
        None => {
            assert(out@ =~= old(out)@ + location_text(*loc));
        },
    }
}

fn push_marker(out: &mut String, id: &str, ctx: &Option<String>)
    ensures
        final(out)@ == old(out)@ + marker_text(id@, opt_view(*ctx)),
{
    match ctx {
        Some(c) => {
            out.append("msgctxt \"");
            out.append(c.as_str());
            out.append("\"\n");
        },
        None => {},
    }
    out.append("msgid \"");
    out.append(id);
    out.append("\"");
    assert(out@ =~= old(out)@ + marker_text(id@, opt_view(*ctx)));
}

/// The text by which an entry for `(id, ctx)` is recognised in a template.
pub fn marker(id: &str, ctx: &Option<String>) -> (r: String)
    ensures
        r@ == marker_text(id@, opt_view(*ctx)),
{
    let mut out = String::new();
    push_marker(&mut out, id, ctx);
    assert(out@ =~= marker_text(id@, opt_view(*ctx)));
    out
}

/// Appends the stanza of `e` to `out`.
fn push_stanza(out: &mut String, e: &TemplateEntry)
    ensures
        final(out)@ == old(out)@ + stanza_text(*e),
{
    out.append("\n");
    push_location(out, &e.location);
    push_marker(out, e.id.as_str(), &e.context);
    match &e.plural {
        Some(p) => {
            out.append("\nmsgid_plural \"");
            out.append(p.as_str());
            out.append("\"\nmsgstr[0] \"\"\nmsgstr[1] \"\"\n");
        },
        None => {
            out.append("\nmsgstr \"\"\n");
        },
    }
    assert(out@ =~= old(out)@ + stanza_text(*e));
}

/// The stanza of `e`, opened by a blank line.
pub fn stanza(e: &TemplateEntry) -> (r: String)
    ensures
        r@ == stanza_text(*e),
{
    let mut out = String::new();
    push_stanza(&mut out, e);
    assert(out@ =~= stanza_text(*e));
    out
}

fn lines_at_exec(s: &Vec<char>, t: &Vec<char>, i: usize) -> (r: bool)
    requires
        i <= s@.len(),
    ensures
        r == lines_at(s@, t@, i as int),
{
    let n = s.len();
    if t.len() > n - i {
        return false;
    }
    if !(i == 0 || s[i - 1] == '\n') {
        return false;
    }
    let e = i + t.len();
    if !(e == n || s[e] == '\n') {
        return false;
    }
    let mut k: usize = 0;
    while k < t.len()
        invariant
            k <= t@.len(),
            i + t@.len() <= s@.len(),
            n == s@.len(),
            forall|q: int| 0 <= q < k ==> s@[i + q] == t@[q],
        decreases t@.len() - k,
    {
        if s[i + k] != t[k] {
            assert(s@.subrange(i as int, i + t@.len())[k as int] != t@[k as int]);
            return false;
        }
        k = k + 1;
    }
    assert(s@.subrange(i as int, i + t@.len()) =~= t@);
    true
}

fn after_context_line_exec(s: &Vec<char>, i: usize) -> (r: bool)
    requires
        i <= s@.len(),
        line_starts_at(s@, i as int),
    ensures
        r == after_context_line(s@, i as int),
{
    proof {
        reveal_strlit("msgctxt");
    }
    if i == 0 {
        return false;
    }
    let mut j = i - 1;
    while j > 0 && s[j - 1] != '\n'
        invariant
            j <= i - 1,
            i <= s@.len(),
            forall|k: int| j <= k < i - 1 ==> s@[k] != '\n',
        decreases j,
    {
        j = j - 1;
    }
    let found = i - j > 7 && s[j] == 'm' && s[j + 1] == 's' && s[j + 2] == 'g' && s[j + 3] == 'c'
        && s[j + 4] == 't' && s[j + 5] == 'x' && s[j + 6] == 't';
    if found {
        assert(s@.subrange(j as int, j + 7) =~= "msgctxt"@);
    } else {
        assert forall|j2: int|
            0 <= j2 && j2 + 7 < i && line_starts_at(s@, j2) && (forall|k: int|
                j2 <= k < i - 1 ==> s@[k] != '\n') implies #[trigger] s@.subrange(j2, j2 + 7)
            != "msgctxt"@ by {
            if j2 < j {
                assert(s@[j - 1] == '\n');
            } else if j2 > j {
                assert(s@[j2 - 1] == '\n');
            } else {
                if s@.subrange(j2, j2 + 7) == "msgctxt"@ {
                    assert(s@.subrange(j2, j2 + 7)[0] == s@[j as int]);
                    assert(s@.subrange(j2, j2 + 7)[1] == s@[j + 1]);
                    assert(s@.subrange(j2, j2 + 7)[2] == s@[j + 2]);
                    assert(s@.subrange(j2, j2 + 7)[3] == s@[j + 3]);
                    assert(s@.subrange(j2, j2 + 7)[4] == s@[j + 4]);
                    assert(s@.subrange(j2, j2 + 7)[5] == s@[j + 5]);
                    assert(s@.subrange(j2, j2 + 7)[6] == s@[j + 6]);
                }
            }
        }
    }
    found
}

/// Whether the template text `s` holds an entry for `(id, ctx)`.
fn holds_entry_exec(s: &Vec<char>, id: &str, ctx: &Option<String>) -> (r: bool)
    ensures
        r == holds_entry(s@, id@, opt_view(*ctx)),
{
    let mk = chars_of(marker(id, ctx).as_str());
    let ghost t = marker_text(id@, opt_view(*ctx));
    let n = s.len();
    let mut i: usize = 0;
    loop
        invariant
            i <= n,
            n == s@.len(),
            mk@ == t,
            t == marker_text(id@, opt_view(*ctx)),
            forall|q: int|
                0 <= q < i ==> !(#[trigger] lines_at(s@, t, q) && (ctx is None ==> !after_context_line(s@, q))),
        decreases n - i,
    {
        let at = lines_at_exec(s, &mk, i);
        let hit = if at {
            match ctx {
                Some(_) => true,
                None => !after_context_line_exec(s, i),
            }
        } else {
            false
        };
        if hit {
            proof {
                assert(lines_at(s@, t, i as int));
                match ctx {
                    Some(_) => {
                        assert(opt_view(*ctx) is Some);
                        assert(holds_entry(s@, id@, opt_view(*ctx)));
                    },
                    None => {
                        assert(!after_context_line(s@, i as int));
                        assert(opt_view(*ctx) is None);
                        assert(holds_entry(s@, id@, opt_view(*ctx)));
                    },
                }
            }
            return true;
        }
        assert(!(lines_at(s@, t, i as int) && (ctx is None ==> !after_context_line(s@, i as int))));
        if i == n {
            proof {
                assert forall|q: int|
                    !(#[trigger] lines_at(s@, t, q) && (ctx is None ==> !after_context_line(s@, q))) by {
                    if lines_at(s@, t, q) {
                        assert(q <= n);
                    }
                }
                match ctx {
                    Some(_) => {
                        assert(opt_view(*ctx) is Some);
                        assert(!holds_entry(s@, id@, opt_view(*ctx)));
                    },
                    None => {
                        assert(opt_view(*ctx) is None);
                        assert(!holds_entry(s@, id@, opt_view(*ctx)));
                    },
                }
            }
            return false;
        }
        i = i + 1;
    }
}

/// The text to append to a template holding `contents` so that it registers
/// `m`: `None` when `m` carries no literal text or when `contents` already
/// holds an entry for its `(id, context)` pair.
pub fn pending_entry(contents: &str, m: &MessageRecord) -> (r: Option<String>)
    ensures
        !registrable(*m) ==> r is None,
        registrable(*m) ==> (r is None <==> holds_entry(
            contents@,
            m.content->0@,
            opt_view(m.context),
        )),
        r is Some ==> r->0@ == stanza_text(entry_of(*m)),
{
    match &m.content {
        None => None,
        Some(c) => {
            if c.as_str().unicode_len() == 0 {
                return None;
            }
            let text = chars_of(contents);
            if holds_entry_exec(&text, c.as_str(), &m.context) {
                return None;
            }
            let e = TemplateEntry {
                location: clone_location(&m.location),
                context: clone_opt(&m.context),
                id: c.clone(),
                plural: clone_opt(&m.plural),
            };
            Some(stanza(&e))
        },
    }
}

/// A location whose file name holds no newline, so that its comment is one
/// line.
pub open spec fn plain_location(loc: Option<SourceLocation>) -> bool {
    match loc {
        Some(l) => forall|k: int| 0 <= k < l.file@.len() ==> #[trigger] l.file@[k] != '\n',
        None => true,
    }
}

/// Text that ends a line or is empty.
pub open spec fn ends_with_newline(s: Seq<char>) -> bool {
    s.len() == 0 || s.last() == '\n'
}

proof fn lemma_decimal_no_newline(n: nat)
    ensures
        forall|k: int| 0 <= k < decimal(n).len() ==> #[trigger] decimal(n)[k] != '\n',
    decreases n,
{
    if n >= 10 {
        lemma_decimal_no_newline(n / 10);
        let d = decimal(n / 10);
        assert forall|k: int| 0 <= k < decimal(n).len() implies #[trigger] decimal(n)[k] != '\n' by {
            if k < d.len() {
                assert(decimal(n)[k] == d[k]);
            }
        }
    }
}

proof fn lemma_location_shape(loc: Option<SourceLocation>)
    requires
        plain_location(loc),
    ensures
        ({
            let l = location_text(loc);
            l.len() > 0 ==> l[0] == '#' && l[l.len() - 1] == '\n' && forall|k: int|
                0 <= k < l.len() - 1 ==> #[trigger] l[k] != '\n'
        }),
{
    reveal_strlit("#: ");
    reveal_strlit(":");
    reveal_strlit("\n");
    match loc {
        Some(lc) => if in_tree(lc.file@) {
            lemma_decimal_no_newline(lc.line as nat);
            let f = lc.file@;
            let d = decimal(lc.line as nat);
            let l = location_text(loc);
            assert(l =~= "#: "@ + f + ":"@ + d + "\n"@);
            assert forall|k: int| 0 <= k < l.len() - 1 implies #[trigger] l[k] != '\n' by {
                if k < 3 {
                } else if k < 3 + f.len() {
                    assert(l[k] == f[k - 3]);
                } else if k == 3 + f.len() {
                } else {
                    assert(l[k] == d[k - 4 - f.len()]);
                }
            }
        },
        None => {},
    }
}

proof fn lemma_stanza_shape(e: TemplateEntry)
    ensures
        stanza_text(e).len() > 0,
        stanza_text(e)[0] == '\n',
        stanza_text(e).last() == '\n',
{
    reveal_strlit("\n");
    reveal_strlit("\"\nmsgstr[0] \"\"\nmsgstr[1] \"\"\n");
    reveal_strlit("\nmsgstr \"\"\n");
}

/// The stanza of `e`, appended to text that ends a line, holds `e`'s entry.
proof fn lemma_stanza_held(pre: Seq<char>, e: TemplateEntry)
    requires
        ends_with_newline(pre),
        plain_location(e.location),
    ensures
        holds_entry(pre + stanza_text(e), e.id@, opt_view(e.context)),
{
    reveal_strlit("\n");
    reveal_strlit("\nmsgid_plural \"");
    reveal_strlit("\nmsgstr \"\"\n");
    reveal_strlit("msgctxt");
    lemma_location_shape(e.location);
    let l = location_text(e.location);
    let ctx = opt_view(e.context);
    let mk = marker_text(e.id@, ctx);
    let tl = tail_text(opt_view(e.plural));
    let s = pre + stanza_text(e);
    let q: int = pre.len() as int + 1;
    let i: int = q + l.len() as int;
    assert(s =~= pre + "\n"@ + l + mk + tl);
    assert(s.subrange(i, i + mk.len()) =~= mk);
    assert(s[q - 1] == '\n');
    if l.len() > 0 {
        assert(s[i - 1] == l[l.len() - 1]);
    }
    assert(s[i + mk.len()] == tl[0]);
    assert(lines_at(s, mk, i));
    if ctx is None {
        if after_context_line(s, i) {
            let j = choose|j: int|
                0 <= j && j + 7 < i && line_starts_at(s, j) && #[trigger] s.subrange(j, j + 7)
                    == "msgctxt"@ && (forall|k: int| j <= k < i - 1 ==> s[k] != '\n');
            if l.len() == 0 {
                assert(pre.len() > 0);
                assert(s[q - 2] == '\n');
            } else if j < q {
                assert(s[q - 1] == '\n');
            } else if j > q {
                assert(s[j - 1] == l[j - 1 - q]);
            } else {
                assert(s.subrange(j, j + 7)[0] == l[0]);
            }
        }
    }
}

/// Text appended after a held entry keeps it held, when the addition starts
/// on a new line.
proof fn lemma_holds_extend(s: Seq<char>, u: Seq<char>, id: Seq<char>, ctx: Option<Seq<char>>)
    requires
        holds_entry(s, id, ctx),
        u.len() == 0 || u[0] == '\n',
    ensures
        holds_entry(s + u, id, ctx),
{
    let mk = marker_text(id, ctx);
    let i = choose|i: int|
        #[trigger] lines_at(s, mk, i) && (ctx is None ==> !after_context_line(s, i));
    let v = s + u;
    assert(v.subrange(i, i + mk.len()) =~= s.subrange(i, i + mk.len()));
    if i > 0 {
        assert(v[i - 1] == s[i - 1]);
    }
    if i + mk.len() == s.len() && u.len() > 0 {
        assert(v[i + mk.len()] == u[0]);
    } else if i + mk.len() < s.len() {
        assert(v[i + mk.len()] == s[i + mk.len()]);
    }
    assert(lines_at(v, mk, i));
    if ctx is None {
        if after_context_line(v, i) {
            let j = choose|j: int|
                0 <= j && j + 7 < i && line_starts_at(v, j) && #[trigger] v.subrange(j, j + 7)
                    == "msgctxt"@ && (forall|k: int| j <= k < i - 1 ==> v[k] != '\n');
            assert(v.subrange(j, j + 7) =~= s.subrange(j, j + 7));
            if j > 0 {
                assert(v[j - 1] == s[j - 1]);
            }
            assert forall|k: int| j <= k < i - 1 implies s[k] != '\n' by {
                assert(v[k] == s[k]);
            }
            assert(after_context_line(s, i));
        }
    }
}

/// Appending the stanza of a registrable message to template text that ends
/// a line makes that text hold the message's entry, so registering the same
/// `(id, context)` pair a second time appends nothing.
pub proof fn lemma_appended_entry_is_found(contents: Seq<char>, m: MessageRecord)
    requires
        registrable(m),
        ends_with_newline(contents),
        plain_location(m.location),
    ensures
        holds_entry(contents + stanza_text(entry_of(m)), m.content->0@, opt_view(m.context)),
{
    lemma_stanza_held(contents, entry_of(m));
}

/// The `(id, context)` pair that identifies an entry.
pub open spec fn key_of(e: TemplateEntry) -> (Seq<char>, Option<Seq<char>>) {
    (e.id@, opt_view(e.context))
}

pub open spec fn has_key(es: Seq<TemplateEntry>, k: (Seq<char>, Option<Seq<char>>)) -> bool {
    exists|i: int| 0 <= i < es.len() && key_of(#[trigger] es[i]) == k
}

/// No two entries share an `(id, context)` pair.
pub open spec fn keys_unique(es: Seq<TemplateEntry>) -> bool {
    forall|i: int, j: int|
        0 <= i < j < es.len() ==> key_of(#[trigger] es[i]) != key_of(#[trigger] es[j])
}

/// The entries after registering `m`: appended when it is registrable and its
/// pair is new, unchanged otherwise.
pub open spec fn recorded(es: Seq<TemplateEntry>, m: MessageRecord) -> Seq<TemplateEntry> {
    if registrable(m) && !has_key(es, key_of(entry_of(m))) {
        es.push(entry_of(m))
    } else {
        es
    }
}

/// The stanzas of `es`, in order.
pub open spec fn stanzas_text(es: Seq<TemplateEntry>) -> Seq<char>
    decreases es.len(),
{
    if es.len() == 0 {
        Seq::empty()
    } else {
        stanzas_text(es.drop_last()) + stanza_text(es.last())
    }
}

/// The stanzas of those entries of `es` that `contents` does not hold yet,
/// in order.
pub open spec fn missing_text(es: Seq<TemplateEntry>, contents: Seq<char>) -> Seq<char>
    decreases es.len(),
{
    if es.len() == 0 {
        Seq::empty()
    } else {
        let e = es.last();
        let rest = missing_text(es.drop_last(), contents);
        if holds_entry(contents, e.id@, opt_view(e.context)) {
            rest
        } else {
            rest + stanza_text(e)
        }
    }
}

/// Registering the same message twice leaves the entries as one registration
/// left them, and registration never makes two entries share a pair.
pub proof fn lemma_record_idempotent(es: Seq<TemplateEntry>, m: MessageRecord)
    requires
        keys_unique(es),
    ensures
        recorded(recorded(es, m), m) == recorded(es, m),
        keys_unique(recorded(es, m)),
{
    let r = recorded(es, m);
    if registrable(m) && !has_key(es, key_of(entry_of(m))) {
        assert(key_of(r[es.len() as int]) == key_of(entry_of(m)));
        assert(has_key(r, key_of(entry_of(m))));
    }
}

proof fn lemma_missing_shape(es: Seq<TemplateEntry>, contents: Seq<char>)
    ensures
        ({
            let m = missing_text(es, contents);
            m.len() == 0 || (m[0] == '\n' && m.last() == '\n')
        }),
    decreases es.len(),
{
    if es.len() > 0 {
        lemma_missing_shape(es.drop_last(), contents);
        lemma_stanza_shape(es.last());
        let rest = missing_text(es.drop_last(), contents);
        if rest.len() == 0 {
            assert(Seq::<char>::empty() + stanza_text(es.last()) =~= stanza_text(es.last()));
        }
    }
}

proof fn lemma_all_held(es: Seq<TemplateEntry>, contents: Seq<char>)
    requires
        ends_with_newline(contents),
        forall|i: int| 0 <= i < es.len() ==> plain_location(#[trigger] es[i].location),
    ensures
        forall|i: int|
            0 <= i < es.len() ==> holds_entry(
                contents + missing_text(es, contents),
                (#[trigger] es[i]).id@,
                opt_view(es[i].context),
            ),
    decreases es.len(),
{
    if es.len() > 0 {
        let init = es.drop_last();
        let e = es.last();
        let rest = missing_text(init, contents);
        let all = missing_text(es, contents);
        let extra = all.subrange(rest.len() as int, all.len() as int);
        assert(all =~= rest + extra);
        assert forall|i: int| 0 <= i < init.len() implies plain_location(#[trigger] init[i].location) by {
            assert(init[i] == es[i]);
        }
        lemma_all_held(init, contents);
        lemma_stanza_shape(e);
        lemma_missing_shape(init, contents);
        lemma_missing_shape(es, contents);
        assert(extra.len() == 0 || extra[0] == '\n');
        assert((contents + rest) + extra =~= contents + all);
        assert forall|i: int|
            0 <= i < es.len() implies holds_entry(
                contents + all,
                (#[trigger] es[i]).id@,
                opt_view(es[i].context),
            ) by {
            if i < es.len() - 1 {
                assert(init[i] == es[i]);
                lemma_holds_extend(contents + rest, extra, es[i].id@, opt_view(es[i].context));
            } else if holds_entry(contents, e.id@, opt_view(e.context)) {
                lemma_holds_extend(contents, all, e.id@, opt_view(e.context));
            } else {
                assert(plain_location(es[es.len() - 1].location));
                assert(ends_with_newline(contents + rest)) by {
                    if rest.len() > 0 {
                        assert((contents + rest).last() == rest.last());
                    } else {
                        assert(contents + rest =~= contents);
                    }
                }
                lemma_stanza_held(contents + rest, e);
                assert(extra =~= stanza_text(e));
            }
        }
    }
}

proof fn lemma_nothing_missing(es: Seq<TemplateEntry>, contents: Seq<char>)
    requires
        forall|i: int|
            0 <= i < es.len() ==> holds_entry(
                contents,
                (#[trigger] es[i]).id@,
                opt_view(es[i].context),
            ),
    ensures
        missing_text(es, contents) == Seq::<char>::empty(),
    decreases es.len(),
{
    if es.len() > 0 {
        let init = es.drop_last();
        assert forall|i: int|
            0 <= i < init.len() implies holds_entry(
                contents,
                (#[trigger] init[i]).id@,
                opt_view(init[i].context),
            ) by {
            assert(init[i] == es[i]);
        }
        lemma_nothing_missing(init, contents);
        assert(holds_entry(contents, es[es.len() - 1].id@, opt_view(es[es.len() - 1].context)));
    }
}

/// Merging a set of entries into template text that ends a line is
/// idempotent: once the missing stanzas are appended, merging the same
/// entries again appends nothing.
pub proof fn lemma_merge_idempotent(es: Seq<TemplateEntry>, contents: Seq<char>)
    requires
        ends_with_newline(contents),
        forall|i: int| 0 <= i < es.len() ==> plain_location(#[trigger] es[i].location),
    ensures
        missing_text(es, contents + missing_text(es, contents)) == Seq::<char>::empty(),
{
    lemma_all_held(es, contents);
    lemma_nothing_missing(es, contents + missing_text(es, contents));
}

/// The message template of a domain, kept in memory: entries in order of
/// first registration, one per `(id, context)` pair.
pub struct Template {
    entries: Vec<TemplateEntry>,
}

impl View for Template {
    type V = Seq<TemplateEntry>;

    closed spec fn view(&self) -> Seq<TemplateEntry> {
        self.entries@
    }
}

fn same_opt(a: &Option<String>, b: &Option<String>) -> (r: bool)
    ensures
        r == (opt_view(*a) == opt_view(*b)),
{
    match (a, b) {
        (Some(x), Some(y)) => *x == *y,
        (None, None) => true,
        _ => false,
    }
}

impl Template {
    pub open spec fn wf(&self) -> bool {
        keys_unique(self@)
    }

    pub fn new() -> (r: Template)
        ensures
            r@ == Seq::<TemplateEntry>::empty(),
            r.wf(),
    {
        Template { entries: Vec::new() }
    }

    /// Whether an entry for `(id, ctx)` is present.
    pub fn contains(&self, id: &String, ctx: &Option<String>) -> (r: bool)
        ensures
            r == has_key(self@, (id@, opt_view(*ctx))),
    {
        let mut i: usize = 0;
        while i < self.entries.len()
            invariant
                i <= self.entries@.len(),
                forall|k: int| 0 <= k < i ==> key_of(#[trigger] self.entries@[k]) != (id@, opt_view(*ctx)),
            decreases self.entries@.len() - i,
        {
            let e = &self.entries[i];
            if e.id == *id && same_opt(&e.context, ctx) {
                assert(key_of(self@[i as int]) == (id@, opt_view(*ctx)));
                return true;
            }
            i = i + 1;
        }
        false
    }

    /// Registers `m`: appends its entry unless it carries no literal text or
    /// its `(id, context)` pair is already present.
    pub fn record(&mut self, m: &MessageRecord)
        requires
            old(self).wf(),
        ensures
            final(self).wf(),
            final(self)@ == recorded(old(self)@, *m),
    {
        proof {
            lemma_record_idempotent(self@, *m);
        }
        match &m.content {
            None => {},
            Some(c) => {
                if c.as_str().unicode_len() == 0 {
                    return;
                }
                if self.contains(c, &m.context) {
                    return;
                }
                let e = TemplateEntry {
                    location: clone_location(&m.location),
                    context: clone_opt(&m.context),
                    id: c.clone(),
                    plural: clone_opt(&m.plural),
                };
                self.entries.push(e);
            },
        }
    }

    /// The entries, in order of registration.
    pub fn entries(&self) -> (r: &[TemplateEntry])
        ensures
            r@ == self@,
    {
        self.entries.as_slice()
    }

    /// The stanzas of all entries, in order.
    pub fn render(&self) -> (r: String)
        ensures
            r@ == stanzas_text(self@),
    {
        let mut out = String::new();
        let mut i: usize = 0;
        while i < self.entries.len()
            invariant
                i <= self.entries@.len(),
                out@ == stanzas_text(self@.subrange(0, i as int)),
            decreases self.entries@.len() - i,
        {
            push_stanza(&mut out, &self.entries[i]);
            proof {
                let s = self@.subrange(0, i + 1);
                assert(s.drop_last() =~= self@.subrange(0, i as int));
            }
            i = i + 1;
        }
        assert(self@.subrange(0, i as int) =~= self@);
        out
    }

    /// What to append to a template holding `contents` in one merge pass:
    /// the stanzas of the entries that it does not hold yet.
    pub fn missing_from(&self, contents: &str) -> (r: String)
        ensures
            r@ == missing_text(self@, contents@),
    {
        let text = chars_of(contents);
        let mut out = String::new();
        let mut i: usize = 0;
        while i < self.entries.len()
            invariant
                i <= self.entries@.len(),
                text@ == contents@,
                out@ == missing_text(self@.subrange(0, i as int), contents@),
            decreases self.entries@.len() - i,
        {
            let e = &self.entries[i];
            if !holds_entry_exec(&text, e.id.as_str(), &e.context) {
                push_stanza(&mut out, e);
            }
            proof {
                let s = self@.subrange(0, i + 1);
                assert(s.drop_last() =~= self@.subrange(0, i as int));
            }
            i = i + 1;
        }
        assert(self@.subrange(0, i as int) =~= self@);
        out
    }
}

/// The header stanza that opens a fresh template for `domain`, with the
/// given `Plural-Forms` value.
pub open spec fn header_text(domain: Seq<char>, plural_forms: Seq<char>) -> Seq<char> {
    "msgid \"\"\nmsgstr \"\"\n\"Project-Id-Version: "@ + domain
        + "\\n\"\n\"Report-Msgid-Bugs-To: \\n\"\n\"POT-Creation-Date: 2018-06-15 16:33-0700\\n\"\n\"PO-Revision-Date: YEAR-MO-DA HO:MI+ZONE\\n\"\n\"Last-Translator: FULL NAME <EMAIL@ADDRESS>\\n\"\n\"Language-Team: LANGUAGE <LL@li.org>\\n\"\n\"Language: \\n\"\n\"MIME-Version: 1.0\\n\"\n\"Content-Type: text/plain; charset=UTF-8\\n\"\n\"Content-Transfer-Encoding: 8bit\\n\"\n\"Plural-Forms: "@
        + plural_forms + "\\n\"\n"@
}

/// The header stanza that opens a fresh template for `domain`.
pub fn template_header(domain: &str, plural_forms: &str) -> (r: String)
    ensures
        r@ == header_text(domain@, plural_forms@),
{
    let mut out = String::from_str("msgid \"\"\nmsgstr \"\"\n\"Project-Id-Version: ");
    out.append(domain);
    out.append(
        "\\n\"\n\"Report-Msgid-Bugs-To: \\n\"\n\"POT-Creation-Date: 2018-06-15 16:33-0700\\n\"\n\"PO-Revision-Date: YEAR-MO-DA HO:MI+ZONE\\n\"\n\"Last-Translator: FULL NAME <EMAIL@ADDRESS>\\n\"\n\"Language-Team: LANGUAGE <LL@li.org>\\n\"\n\"Language: \\n\"\n\"MIME-Version: 1.0\\n\"\n\"Content-Type: text/plain; charset=UTF-8\\n\"\n\"Content-Transfer-Encoding: 8bit\\n\"\n\"Plural-Forms: ",
    );
    out.append(plural_forms);
    out.append("\\n\"\n");
    out
}

/// The characters of `s`, in order.
pub fn chars_of(s: &str) -> (r: Vec<char>)
    ensures
        r@ == s@,
{
    let mut out: Vec<char> = Vec::new();
    let mut it = s.chars();
    loop
        invariant
            out@ + it.remaining() == s@,
            it.obeys_prophetic_iter_laws(),
            it.decrease() is Some,
        decreases it.decrease()->0,
    {
        let ghost before = it.remaining();
        match it.next() {
            Some(c) => {
                out.push(c);
                assert(out@ + it.remaining() =~= s@);
            },
            None => {
                assert(out@ =~= s@);
                return out;
            },
        }
    }
}

} // verus!
