use vstd::prelude::*;
use vstd::string::{StrSliceExecFns, StringExecFns};

use crate::entry::{fields_view, opt_str_view, Entry, EntryView};
use crate::scope::{find_field, first_with_key};

verus! {

/// Display width of a text, escape codes aside.
pub uninterp spec fn text_width(s: Seq<char>) -> usize;

/// Relies on `console::measure_text_width`: the display width of `s` once
/// ANSI escape codes are stripped, which depends on the text alone.
#[verifier::external_body]
fn measure_width(s: &str) -> (r: usize)
    ensures
        r == text_width(s@),
{
    console::measure_text_width(s)
}

/// `s` wrapped in the escape codes that switch on style `code` and then
/// reset all styles.
pub open spec fn ansi(code: Seq<char>, s: Seq<char>) -> Seq<char> {
    "\x1b["@ + code + "m"@ + s + "\x1b[0m"@
}

/// `r` is `s` styled with `code` when colours are on, or `s` itself.
pub open spec fn styled(code: Seq<char>, s: Seq<char>, r: Seq<char>) -> bool {
    r == s || r == ansi(code, s)
}

/// Relies on `console::style(..).cyan()`: formatted, the text is wrapped in
/// the codes for a cyan foreground when colours are enabled, else unchanged.
#[verifier::external_body]
fn cyan(s: &str) -> (r: String)
    ensures
        styled("36"@, s@, r@),
{
    console::style(s).cyan().to_string()
}

/// Relies on `console::style(..).italic()`: formatted, the text is wrapped
/// in the codes for italics when colours are enabled, else unchanged.
#[verifier::external_body]
fn italic(s: &str) -> (r: String)
    ensures
        styled("3"@, s@, r@),
{
    console::style(s).italic().to_string()
}

/// Relies on chrono: the local wall-clock time, as `HH:MM:SS.mmm`, of a
/// Unix time in microseconds; `None` outside chrono's range. The result
/// depends on the machine's time zone, so nothing more is stated.
#[verifier::external_body]
fn local_clock(micros: i64) -> (r: Option<String>) {
    match chrono::DateTime::from_timestamp_micros(micros) {
        Some(t) => Some(t.with_timezone(&chrono::Local).format("%H:%M:%S%.3f").to_string()),
        None => None,
    }
}

pub open spec fn digit(d: nat) -> char {
    if d == 0 {
        '0'
    } else if d == 1 {
        '1'
    } else if d == 2 {
        '2'
    } else if d == 3 {
        '3'
    } else if d == 4 {
        '4'
    } else if d == 5 {
        '5'
    } else if d == 6 {
        '6'
    } else if d == 7 {
        '7'
    } else if d == 8 {
        '8'
    } else {
        '9'
    }
}

/// Decimal digits of `n`, without leading zeros.
pub open spec fn decimal(n: nat) -> Seq<char>
    decreases n,
{
    if n < 10 {
        seq![digit(n)]
    } else {
        decimal(n / 10).push(digit(n % 10))
    }
}

/// Relies on `ToString` for `u128`: the decimal digits of `n`.
#[verifier::external_body]
fn decimal_text(n: u128) -> (r: String)
    ensures
        r@ == decimal(n as nat),
{
    n.to_string()
}

pub open spec fn spaces(n: nat) -> Seq<char> {
    Seq::new(n, |i: int| ' ')
}

/// `s` right-aligned in `w` columns.
pub open spec fn pad_left(s: Seq<char>, w: nat) -> Seq<char> {
    if s.len() < w {
        spaces((w - s.len()) as nat) + s
    } else {
        s
    }
}

/// Whole milliseconds of an accumulated time, or nothing when it is zero.
pub open spec fn took_text(took: u128) -> Seq<char> {
    if took == 0 {
        Seq::empty()
    } else {
        decimal((took / 1000) as nat) + "ms"@
    }
}

/// Indentation and branch glyph of a node at `depth`.
pub open spec fn tree_prefix(depth: nat, last: bool) -> Seq<char> {
    if depth == 0 {
        Seq::empty()
    } else {
        spaces((4 * (depth - 1)) as nat) + if last {
            " └─ "@
        } else {
            " ├─ "@
        }
    }
}

/// `file:line`, either part left out when absent.
pub open spec fn location(file: Option<Seq<char>>, line: Option<u32>) -> Seq<char> {
    let f = match file {
        Some(f) => f,
        None => Seq::empty(),
    };
    match line {
        Some(n) => f + ":"@ + decimal(n as nat),
        None => f,
    }
}

/// `key:value` for every field but the message, separated by spaces.
pub open spec fn fields_text(f: Seq<(Seq<char>, Seq<char>)>) -> Seq<char>
    decreases f.len(),
{
    if f.len() == 0 {
        Seq::empty()
    } else {
        let prev = fields_text(f.drop_last());
        let (k, v) = f.last();
        if k == "message"@ {
            prev
        } else if prev.len() == 0 {
            k + ":"@ + v
        } else {
            prev + " "@ + k + ":"@ + v
        }
    }
}

/// `parts` separated by single spaces.
pub open spec fn join_words(parts: Seq<Seq<char>>) -> Seq<char>
    decreases parts.len(),
{
    if parts.len() == 0 {
        Seq::empty()
    } else if parts.len() == 1 {
        parts[0]
    } else {
        join_words(parts.drop_last()) + " "@ + parts.last()
    }
}

pub open spec fn opt_part(p: Option<Seq<char>>) -> Seq<Seq<char>> {
    match p {
        Some(s) => seq![s],
        None => Seq::empty(),
    }
}

/// The message column: the (styled) name, the bracketed fields when there
/// are any, and the (styled) message text.
pub open spec fn message_text(
    name_part: Option<Seq<char>>,
    fields: Seq<(Seq<char>, Seq<char>)>,
    message_part: Option<Seq<char>>,
) -> Seq<char> {
    let ft = fields_text(fields);
    let middle = if ft.len() > 0 {
        seq!["["@ + ft + "]"@]
    } else {
        Seq::empty()
    };
    join_words(opt_part(name_part) + middle + opt_part(message_part))
}

/// `msg` is the message column of `e` for one of the colour settings: the
/// name in cyan when the entry has a duration, and the first `message`
/// field in italics.
pub open spec fn message_of(e: EntryView, msg: Seq<char>) -> bool {
    exists|np: Option<Seq<char>>, mp: Option<Seq<char>>|
        {
            &&& msg == message_text(np, e.fields, mp)
            &&& (e.took == 0 ==> np is None)
            &&& (e.took != 0 ==> np is Some && styled("36"@, e.name, np->Some_0))
            &&& match mp {
                None => forall|i: int| 0 <= i < e.fields.len() ==> #[trigger] e.fields[i].0 != "message"@,
                Some(m) => exists|i: int|
                    first_with_key(e.fields, "message"@, i) && styled("3"@, e.fields[i].1, m),
            }
        }
}

/// The text of one line: head, then enough spaces to push the location to
/// the right edge of a terminal `width` columns wide, then the location.
pub open spec fn line_text(head: Seq<char>, loc: Seq<char>, width: usize) -> Seq<char> {
    let content = text_width(head) + text_width(loc);
    let gap: nat = if width > content {
        (width - content) as nat
    } else {
        0
    };
    head + spaces(gap) + loc
}

/// The head of a line: clock, level, duration, tree prefix and message.
pub open spec fn head_text(clock: Seq<char>, e: EntryView, depth: nat, last: bool, msg: Seq<char>) -> Seq<char> {
    clock + " "@ + pad_left(e.level, 5) + " "@ + pad_left(took_text(e.took), 7) + " "@
        + tree_prefix(depth, last) + msg
}

/// `line` renders node `e` at `depth` for some clock text and colour
/// setting.
pub open spec fn line_of(line: Seq<char>, e: EntryView, depth: nat, last: bool, width: usize) -> bool {
    exists|clock: Seq<char>, msg: Seq<char>|
        message_of(e, msg) && line == #[trigger] line_text(
            head_text(clock, e, depth, last, msg),
            location(e.file, e.line),
            width,
        )
}

fn push_spaces(s: &mut String, n: usize)
    ensures
        final(s)@ == old(s)@ + spaces(n as nat),
{
    proof {
        reveal_strlit(" ");
    }
    let mut i: usize = 0;
    while i < n
        invariant
            i <= n,
            s@ == old(s)@ + spaces(i as nat),
        decreases n - i,
    {
        s.append(" ");
        proof {
            reveal_strlit(" ");
            assert(" "@ =~= seq![' ']);
        }
        i = i + 1;
        assert(s@ =~= old(s)@ + spaces(i as nat));
    }
}

fn padded(s: &str, w: usize) -> (r: String)
    ensures
        r@ == pad_left(s@, w as nat),
{
    let n = s.unicode_len();
    let mut r = String::new();
    if n < w {
        push_spaces(&mut r, w - n);
    }
    r.append(s);
    assert(r@ =~= pad_left(s@, w as nat));
    r
}

/// The fields other than the message as `key:value`, separated by spaces.
pub fn fields_line(fields: &Vec<(String, String)>) -> (r: String)
    ensures
        r@ == fields_text(fields_view(fields@)),
{
    proof {
        reveal_strlit(" ");
        reveal_strlit(":");
    }
    let ghost f = fields_view(fields@);
    let message = "message".to_owned();
    let mut r = String::new();
    let mut i: usize = 0;
    while i < fields.len()
        invariant
            i <= fields.len(),
            f == fields_view(fields@),
            message@ == "message"@,
            r@ == fields_text(f.take(i as int)),
        decreases fields.len() - i,
    {
        assert(f.take(i as int + 1).drop_last() =~= f.take(i as int));
        assert(f[i as int] == (fields@[i as int].0@, fields@[i as int].1@));
        if fields[i].0 != message {
            if r.unicode_len() > 0 {
                r.append(" ");
            }
            r.append(fields[i].0.as_str());
            r.append(":");
            r.append(fields[i].1.as_str());
        }
        i = i + 1;
        assert(r@ =~= fields_text(f.take(i as int)));
    }
    assert(f.take(fields.len() as int) =~= f);
    r
}

fn join_with_spaces(parts: &Vec<String>) -> (r: String)
    ensures
        r@ == join_words(parts@.map_values(|p: String| p@)),
{
    proof {
        reveal_strlit(" ");
    }
    let ghost ps = parts@.map_values(|p: String| p@);
    let mut r = String::new();
    let mut i: usize = 0;
    while i < parts.len()
        invariant
            i <= parts.len(),
            ps == parts@.map_values(|p: String| p@),
            r@ == join_words(ps.take(i as int)),
        decreases parts.len() - i,
    {
        assert(ps.take(i as int + 1).drop_last() =~= ps.take(i as int));
        if i > 0 {
            r.append(" ");
        } else {
            assert(ps.take(1) =~= seq![ps[0]]);
        }
        r.append(parts[i].as_str());
        i = i + 1;
        assert(r@ =~= join_words(ps.take(i as int)));
    }
    assert(ps.take(parts.len() as int) =~= ps);
    r
}

/// The message column from its parts: the (styled) name, the fields, and
/// the (styled) message text.
pub fn compose_message(
    name_part: Option<String>,
    fields: &Vec<(String, String)>,
    message_part: Option<String>,
) -> (r: String)
    ensures
        r@ == message_text(
            opt_str_view(name_part),
            fields_view(fields@),
            opt_str_view(message_part),
        ),
{
    proof {
        reveal_strlit("[");
        reveal_strlit("]");
    }
    let mut parts: Vec<String> = Vec::new();
    match name_part {
        Some(n) => parts.push(n),
        None => {},
    }
    let ft = fields_line(fields);
    if ft.unicode_len() > 0 {
        let mut b = "[".to_owned();
        b.append(ft.as_str());
        b.append("]");
        parts.push(b);
    }
    match message_part {
        Some(m) => parts.push(m),
        None => {},
    }
    let r = join_with_spaces(&parts);
    let ghost ft_v = fields_text(fields_view(fields@));
    let ghost middle = if ft_v.len() > 0 {
        seq!["["@ + ft_v + "]"@]
    } else {
        Seq::empty()
    };
    assert(parts@.map_values(|p: String| p@) =~= opt_part(opt_str_view(name_part)) + middle
        + opt_part(opt_str_view(message_part)));
    r
}

/// The message column of `entry`: the name in cyan when it has a duration,
/// the fields other than the message, and the message in italics.
pub fn format_entry_message(entry: &Entry) -> (r: String)
    ensures
        message_of(entry@, r@),
{
    let name_part = if entry.took != 0 {
        Some(cyan(entry.name.as_str()))
    } else {
        None
    };
    let message_part = match entry.field("message") {
        Some(m) => Some(italic(m.as_str())),
        None => None,
    };
    let r = compose_message(name_part, &entry.fields, message_part);
    proof {
        let e = entry@;
        assert(e.fields == fields_view(entry.fields@));
        assert(e.took == entry.took && e.name == entry.name@);
        let np = opt_str_view(name_part);
        let mp = opt_str_view(message_part);
        if mp is None {
            assert forall|i: int| 0 <= i < e.fields.len() implies #[trigger] e.fields[i].0
                != "message"@ by {
                assert(e.fields[i].0 == entry.fields@[i].0@);
            }
        }
        assert(r@ == message_text(np, e.fields, mp));
    }
    r
}

fn push_indent(s: &mut String, k: usize)
    ensures
        final(s)@ == old(s)@ + spaces((4 * k) as nat),
{
    let mut j: usize = 0;
    while j < k
        invariant
            j <= k,
            s@ == old(s)@ + spaces((4 * j) as nat),
        decreases k - j,
    {
        push_spaces(s, 4);
        j = j + 1;
        assert(s@ =~= old(s)@ + spaces((4 * j) as nat));
    }
}

fn location_text(file: &Option<String>, line: Option<u32>) -> (r: String)
    ensures
        r@ == location(opt_str_view(*file), line),
{
    proof {
        reveal_strlit(":");
    }
    let mut r = match file {
        Some(f) => f.clone(),
        None => String::new(),
    };
    match line {
        Some(n) => {
            r.append(":");
            let d = decimal_text(n as u128);
            r.append(d.as_str());
        },
        None => {},
    }
    r
}

/// One rendered line: `clock`, the level right-aligned in five columns, the
/// duration in seven, the tree prefix for `depth`, the message column, and
/// the location pushed to the right edge of a terminal `terminal_width`
/// columns wide.
pub fn render_line(
    clock: &str,
    entry: &Entry,
    depth: usize,
    last: bool,
    message: &str,
    terminal_width: usize,
) -> (r: String)
    ensures
        r@ == line_text(
            head_text(clock@, entry@, depth as nat, last, message@),
            location(entry@.file, entry@.line),
            terminal_width,
        ),
{
    proof {
        reveal_strlit(" ");
        reveal_strlit("ms");
    }
    let mut head = clock.to_owned();
    head.append(" ");
    let lvl = padded(entry.level.as_str(), 5);
    head.append(lvl.as_str());
    head.append(" ");
    let took = if entry.took != 0 {
        let mut t = decimal_text(entry.took / 1000);
        t.append("ms");
        t
    } else {
        String::new()
    };
    let tp = padded(took.as_str(), 7);
    head.append(tp.as_str());
    head.append(" ");
    let ghost before_prefix = head@;
    if depth > 0 {
        push_indent(&mut head, depth - 1);
        if last {
            head.append(" └─ ");
        } else {
            head.append(" ├─ ");
        }
    }
    assert(head@ =~= before_prefix + tree_prefix(depth as nat, last));
    head.append(message);
    let loc = location_text(&entry.file, entry.line);
    let content = measure_width(head.as_str()).saturating_add(measure_width(loc.as_str()));
    let gap = if terminal_width > content {
        terminal_width - content
    } else {
        0
    };
    let mut line = head;
    push_spaces(&mut line, gap);
    line.append(loc.as_str());
    proof {
        let e = entry@;
        assert(e.level == entry.level@ && e.took == entry.took);
        assert(e.file == opt_str_view(entry.file) && e.line == entry.line);
        assert(took@ == took_text(entry.took));
        assert(line@ =~= line_text(
            head_text(clock@, e, depth as nat, last, message@),
            location(e.file, e.line),
            terminal_width,
        ));
    }
    line
}

/// `d + 1`, held at the largest `usize`.
pub open spec fn deeper(d: nat) -> nat {
    if d + 1 > usize::MAX {
        usize::MAX as nat
    } else {
        d + 1
    }
}

/// Nodes of the tree `e` in depth-first order, each with its depth and
/// whether it is the last child of its parent.
pub open spec fn preorder(e: EntryView, depth: nat, last: bool) -> Seq<(EntryView, nat, bool)>
    decreases e, e.children.len() + 1,
{
    seq![(e, depth, last)] + preorder_children(e, depth, e.children.len())
}

/// [`preorder`] of the first `n` children of `e`, one level below `depth`.
pub open spec fn preorder_children(e: EntryView, depth: nat, n: nat) -> Seq<(EntryView, nat, bool)>
    decreases e, n,
{
    if n == 0 || n > e.children.len() {
        Seq::empty()
    } else {
        preorder_children(e, depth, (n - 1) as nat) + preorder(
            e.children[n - 1],
            deeper(depth),
            n == e.children.len(),
        )
    }
}

/// Line `i` of `lines` renders node `i` of `nodes`.
pub open spec fn renders(lines: Seq<String>, nodes: Seq<(EntryView, nat, bool)>, width: usize) -> bool {
    &&& lines.len() == nodes.len()
    &&& forall|i: int|
        0 <= i < lines.len() ==> #[trigger] line_of(
            lines[i]@,
            nodes[i].0,
            nodes[i].1,
            nodes[i].2,
            width,
        )
}

proof fn lemma_renders_concat(
    a: Seq<String>,
    na: Seq<(EntryView, nat, bool)>,
    b: Seq<String>,
    nb: Seq<(EntryView, nat, bool)>,
    width: usize,
)
    requires
        renders(a, na, width),
        renders(b, nb, width),
    ensures
        renders(a + b, na + nb, width),
{
    assert forall|i: int| 0 <= i < (a + b).len() implies #[trigger] line_of(
        (a + b)[i]@,
        (na + nb)[i].0,
        (na + nb)[i].1,
        (na + nb)[i].2,
        width,
    ) by {
        if i >= a.len() {
            assert(line_of(b[i - a.len()]@, nb[i - a.len()].0, nb[i - a.len()].1, nb[i - a.len()].2, width));
        } else {
            assert(line_of(a[i]@, na[i].0, na[i].1, na[i].2, width));
        }
    }
}

fn write_entry_inner(
    out: &mut Vec<String>,
    entry: &Entry,
    depth: usize,
    last: bool,
    terminal_width: usize,
)
    ensures
        final(out)@.len() >= old(out)@.len(),
        final(out)@.take(old(out)@.len() as int) == old(out)@,
        renders(
            final(out)@.skip(old(out)@.len() as int),
            preorder(entry@, depth as nat, last),
            terminal_width,
        ),
    decreases entry,
{
    let ghost start = out@.len();
    let clock = if entry.stamp <= 9223372036854775807u64 {
        match local_clock(entry.stamp as i64) {
            Some(c) => c,
            None => String::new(),
        }
    } else {
        String::new()
    };
    let msg = format_entry_message(entry);
    let line = render_line(clock.as_str(), entry, depth, last, msg.as_str(), terminal_width);
    out.push(line);
    let ghost e = entry@;
    proof {
        entry.lemma_children_view();
        assert(line_of(line@, e, depth as nat, last, terminal_width));
        assert(out@.skip(start as int) =~= seq![line]);
        assert(preorder_children(e, depth as nat, 0) =~= Seq::empty());
        assert(seq![(e, depth as nat, last)] + preorder_children(e, depth as nat, 0) =~= seq![
            (e, depth as nat, last),
        ]);
    }
    let next = depth.saturating_add(1);
    let n = entry.children.len();
    let mut i: usize = 0;
    while i < n
        invariant
            i <= n,
            n == entry.children@.len(),
            e == entry@,
            e.children.len() == n,
            forall|j: int| 0 <= j < n ==> #[trigger] e.children[j] == entry.children@[j]@,
            next as nat == deeper(depth as nat),
            out@.len() >= start,
            out@.take(start as int) == old(out)@,
            start == old(out)@.len(),
            renders(
                out@.skip(start as int),
                seq![(e, depth as nat, last)] + preorder_children(e, depth as nat, i as nat),
                terminal_width,
            ),
        decreases n - i,
    {
        let ghost before = out@;
        write_entry_inner(out, &entry.children[i], next, i + 1 == n, terminal_width);
        proof {
            let done = before.skip(start as int);
            let added = out@.skip(before.len() as int);
            assert(out@.skip(start as int) =~= done + added);
            assert(out@.take(start as int) =~= before.take(start as int));
            lemma_renders_concat(
                done,
                seq![(e, depth as nat, last)] + preorder_children(e, depth as nat, i as nat),
                added,
                preorder(e.children[i as int], deeper(depth as nat), i + 1 == n),
                terminal_width,
            );
            assert(seq![(e, depth as nat, last)] + preorder_children(e, depth as nat, (i + 1) as nat)
                =~= seq![(e, depth as nat, last)] + preorder_children(e, depth as nat, i as nat)
                + preorder(e.children[i as int], deeper(depth as nat), i + 1 == n));
        }
        i = i + 1;
    }
}

/// Renders `entry` and everything below it, one line per node in
/// depth-first order, onto the end of `out`, for a terminal
/// `terminal_width` columns wide.
pub fn write_entry(out: &mut Vec<String>, entry: &Entry, terminal_width: usize)
    ensures
        final(out)@.len() >= old(out)@.len(),
        final(out)@.take(old(out)@.len() as int) == old(out)@,
        renders(
            final(out)@.skip(old(out)@.len() as int),
            preorder(entry@, 0, false),
            terminal_width,
        ),
{
    write_entry_inner(out, entry, 0, false, terminal_width)
}

} // verus!
