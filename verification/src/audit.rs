//! Log events, the audit log, and where traces are sent.
use vstd::prelude::*;
use vstd::string::*;

use crate::clock::now_epoch_ms;
use crate::common::{join3, ErrorModel, Result, Undr9Error};
use crate::ordered::{lemma_filter_step, OrderedMap};
use crate::text;

verus! {

// ---------------------------------------------------------------------------------------------
// Events
// ---------------------------------------------------------------------------------------------

/// Something that happened, for the log.
#[derive(Debug, PartialEq, Eq)]
pub struct StructuredLogEvent {
    pub timestamp_ms: u128,
    pub level: String,
    pub target: String,
    pub message: String,
    pub fields: OrderedMap<String, String>,
}

impl StructuredLogEvent {
    /// Something that happens now. The time is that of the clock.
    pub fn new(level: &str, target: &str, message: &str) -> (r: Self)
        ensures
            r.level@ == level@,
            r.target@ == target@,
            r.message@ == message@,
            r.fields@ == Map::<Seq<char>, Seq<char>>::empty(),
    {
        StructuredLogEvent {
            timestamp_ms: now_epoch_ms(),
            level: level.to_owned(),
            target: target.to_owned(),
            message: message.to_owned(),
            fields: OrderedMap::new(),
        }
    }

    /// The event with one more field, or another value for a field.
    pub fn with_field(self, key: &str, value: &str) -> (r: Self)
        ensures
            r.timestamp_ms == self.timestamp_ms,
            r.level@ == self.level@,
            r.target@ == self.target@,
            r.message@ == self.message@,
            r.fields@ == self.fields@.insert(key@, value@),
    {
        let mut event: StructuredLogEvent = self;
        let mut fields: OrderedMap<String, String> = OrderedMap::new();
        std::mem::swap(&mut fields, &mut event.fields);
        fields.insert(key.to_owned(), value.to_owned());
        event.fields = fields;
        event
    }
}

/// How loudly an event is traced.
#[derive(Debug, Clone, Copy, PartialEq, Eq, Structural)]
pub enum TraceLevel {
    Trace,
    Debug,
    Info,
    Warn,
    Error,
}

/// How loudly an event of a level is traced: what is no level is traced as information. Letter
/// case does not count.
pub open spec fn level_of(level: Seq<char>) -> TraceLevel {
    let word = text::lowercased(level);
    if word == "trace"@ {
        TraceLevel::Trace
    } else if word == "debug"@ {
        TraceLevel::Debug
    } else if word == "warn"@ {
        TraceLevel::Warn
    } else if word == "error"@ {
        TraceLevel::Error
    } else {
        TraceLevel::Info
    }
}

/// How loudly an event of a level is traced.
pub fn trace_level(level: &str) -> (r: TraceLevel)
    ensures
        r == level_of(level@),
{
    let word: String = text::to_lower(level);
    let w: &str = word.as_str();
    if text::same_text(w, "trace") {
        TraceLevel::Trace
    } else if text::same_text(w, "debug") {
        TraceLevel::Debug
    } else if text::same_text(w, "warn") {
        TraceLevel::Warn
    } else if text::same_text(w, "error") {
        TraceLevel::Error
    } else {
        TraceLevel::Info
    }
}

/// Something that someone did, for the audit log.
#[derive(Debug, PartialEq, Eq)]
pub struct AuditEvent {
    pub timestamp_ms: u128,
    pub actor: String,
    pub action: String,
    pub resource: String,
    pub outcome: String,
    pub detail: String,
}

impl AuditEvent {
    /// Something that someone does now. The time is that of the clock.
    pub fn new(actor: &str, action: &str, resource: &str, outcome: &str, detail: &str) -> (r: Self)
        ensures
            r.actor@ == actor@,
            r.action@ == action@,
            r.resource@ == resource@,
            r.outcome@ == outcome@,
            r.detail@ == detail@,
    {
        AuditEvent {
            timestamp_ms: now_epoch_ms(),
            actor: actor.to_owned(),
            action: action.to_owned(),
            resource: resource.to_owned(),
            outcome: outcome.to_owned(),
            detail: detail.to_owned(),
        }
    }
}

/// What is reported while the service runs, and where to.
#[derive(Debug, PartialEq, Eq)]
pub struct RuntimeObservabilityConfig {
    pub log_level: String,
    pub tracing_enabled: bool,
    pub tracing_json: bool,
    pub otlp_enabled: bool,
    pub otlp_protocol: String,
    pub otlp_endpoint: String,
    pub otlp_headers: String,
    pub otlp_timeout_ms: u64,
}

// ---------------------------------------------------------------------------------------------
// Lines
// ---------------------------------------------------------------------------------------------

/// The lines of pieces that newlines part: a carriage return before a newline belongs to it, and
/// nothing follows a newline at the end.
pub open spec fn lines_of_pieces(pieces: Seq<Seq<char>>) -> Seq<Seq<char>> {
    let closed = Seq::new(
        (pieces.len() - 1) as nat,
        |i: int| text::without_suffix(pieces[i], seq!['\r']),
    );
    if pieces.last().len() == 0 {
        closed
    } else {
        closed.push(pieces.last())
    }
}

/// The lines of a text.
pub open spec fn lines(s: Seq<char>) -> Seq<Seq<char>> {
    lines_of_pieces(text::split_pieces(s, '\n'))
}

/// The last items of a list.
pub open spec fn last_of<A>(items: Seq<A>, count: usize) -> Seq<A> {
    if items.len() <= count {
        items
    } else {
        items.skip(items.len() - count)
    }
}

/// The lines that are not blank.
pub open spec fn entries(list: Seq<Seq<char>>) -> Seq<Seq<char>> {
    list.filter(|line: Seq<char>| !text::is_blank(line))
}

/// The lines of a text.
fn split_lines(payload: &str) -> (r: Vec<String>)
    ensures
        text::texts(r@) == lines(payload@),
{
    let pieces: Vec<String> = text::split(payload, '\n');
    let ghost all = text::texts(pieces@);
    let count: usize = pieces.len() - 1;
    let mut out: Vec<String> = Vec::new();
    let mut i: usize = 0;
    while i < count
        invariant
            i <= count,
            count == pieces.len() - 1,
            all == text::texts(pieces@),
            out.len() == i,
            forall|k: int|
                0 <= k < i ==> (#[trigger] out@[k])@ == text::without_suffix(all[k], seq!['\r']),
        decreases count - i,
    {
        proof {
            reveal_strlit("\r");
            assert("\r"@ =~= seq!['\r']);
        }
        out.push(text::strip_suffix_or_all(pieces[i].as_str(), "\r"));
        i = i + 1;
    }
    proof {
        reveal_strlit("");
        if all.last().len() == 0 {
            assert(all.last() =~= ""@);
        }
    }
    if !text::same_text(pieces[count].as_str(), "") {
        out.push(pieces[count].clone());
    }
    proof {
        assert(text::texts(out@) =~= lines_of_pieces(all));
    }
    out
}

/// The lines that are not blank.
fn keep_entries(list: &Vec<String>, from: usize) -> (r: Vec<String>)
    requires
        from <= list.len(),
    ensures
        text::texts(r@) == entries(text::texts(list@).skip(from as int)),
{
    let ghost all = text::texts(list@).skip(from as int);
    let ghost test = |line: Seq<char>| !text::is_blank(line);
    let mut out: Vec<String> = Vec::new();
    let mut i: usize = from;
    proof {
        reveal(Seq::filter);
        assert(all.take(0).filter(test).len() == 0);
        assert(text::texts(out@) =~= all.take(0).filter(test));
    }
    while i < list.len()
        invariant
            from <= i <= list.len(),
            all == text::texts(list@).skip(from as int),
            test == (|line: Seq<char>| !text::is_blank(line)),
            text::texts(out@) == all.take(i - from).filter(test),
        decreases list.len() - i,
    {
        proof {
            lemma_filter_step(all, test, i - from);
            assert(all[i - from] == list@[i as int]@);
        }
        let ghost held = out@;
        if !text::blank(list[i].as_str()) {
            out.push(list[i].clone());
            proof {
                assert(text::texts(out@) =~= text::texts(held).push(list@[i as int]@));
            }
        }
        i = i + 1;
    }
    proof {
        assert(all.take(i - from) =~= all);
    }
    out
}

// ---------------------------------------------------------------------------------------------
// The audit log
// ---------------------------------------------------------------------------------------------

/// The entries among the last lines of an audit log. Blank lines count as lines.
pub open spec fn exported(payload: Seq<char>, limit: usize) -> Seq<Seq<char>> {
    entries(last_of(lines(payload), limit))
}

/// The entries among the last lines of an audit log.
pub fn exported_lines(payload: &str, limit: usize) -> (r: Vec<String>)
    ensures
        text::texts(r@) == exported(payload@, limit),
{
    let list: Vec<String> = split_lines(payload);
    let from: usize = if list.len() <= limit { 0 } else { list.len() - limit };
    proof {
        assert(text::texts(list@).skip(from as int) =~= last_of(lines(payload@), limit));
    }
    keep_entries(&list, from)
}

/// Lines, each with a newline behind it.
pub open spec fn joined(list: Seq<Seq<char>>) -> Seq<char>
    decreases list.len(),
{
    if list.len() == 0 {
        Seq::empty()
    } else {
        joined(list.drop_last()) + list.last().push('\n')
    }
}

/// An audit log with its last entries alone: nothing where it has no more of them. With no entry
/// to keep, an empty line is left.
pub open spec fn pruned(payload: Seq<char>, retain: usize) -> Option<(Seq<char>, nat)> {
    let all = entries(lines(payload));
    if all.len() <= retain {
        None
    } else if retain == 0 {
        Some((seq!['\n'], all.len()))
    } else {
        Some((joined(last_of(all, retain)), (all.len() - retain) as nat))
    }
}

/// An audit log with its last entries alone, and how many were taken out; nothing where it has no
/// more of them.
pub fn prune_lines(payload: &str, retain_entries: usize) -> (r: Option<(String, usize)>)
    ensures
        match r {
            Some((rest, removed)) => pruned(payload@, retain_entries) == Some(
                (rest@, removed as nat),
            ),
            None => pruned(payload@, retain_entries) is None,
        },
{
    let list: Vec<String> = split_lines(payload);
    let kept: Vec<String> = keep_entries(&list, 0);
    let ghost all = entries(lines(payload@));
    proof {
        assert(text::texts(list@).skip(0) =~= text::texts(list@));
        assert(all.len() == kept.len());
    }
    if kept.len() <= retain_entries {
        return None;
    }
    let from: usize = kept.len() - retain_entries;
    let mut out: String = "".to_owned();
    proof {
        reveal_strlit("");
        assert(out@ =~= Seq::<char>::empty());
    }
    if retain_entries == 0 {
        out.push('\n');
        proof {
            assert(out@ =~= seq!['\n']);
        }
        return Some((out, from));
    }
    let ghost last = last_of(all, retain_entries);
    let mut i: usize = from;
    proof {
        assert(last.take(0).len() == 0);
    }
    while i < kept.len()
        invariant
            from <= i <= kept.len(),
            text::texts(kept@) == all,
            from == all.len() - retain_entries,
            last == last_of(all, retain_entries),
            all.len() > retain_entries,
            out@ == joined(last.take(i - from)),
        decreases kept.len() - i,
    {
        proof {
            let longer = last.take(i + 1 - from);
            assert(longer.drop_last() =~= last.take(i - from));
            assert(longer.last() == last[i - from]);
            assert(last[i - from] == all[i as int]);
            assert(all[i as int] == kept@[i as int]@);
        }
        let ghost before = out@;
        out.append(kept[i].as_str());
        out.push('\n');
        proof {
            assert(out@ =~= before + kept@[i as int]@.push('\n'));
        }
        i = i + 1;
    }
    proof {
        assert(last.take(i - from) =~= last);
    }
    Some((out, from))
}

/// What newlines part in lines that hold none, each with a newline behind it.
proof fn lemma_pieces_of_joined(list: Seq<Seq<char>>)
    requires
        forall|i: int| 0 <= i < list.len() ==> !(#[trigger] list[i]).contains('\n'),
    ensures
        text::split_pieces(joined(list), '\n') == list.push(Seq::empty()),
    decreases list.len(),
{
    if list.len() == 0 {
        let s = joined(list);
        text::lemma_index_from(s, '\n', 0, 0);
        assert(text::split_pieces(s, '\n') =~= list.push(Seq::empty()));
    } else {
        let rest = list.drop_first();
        assert forall|i: int| 0 <= i < rest.len() implies !(#[trigger] rest[i]).contains('\n') by {
            assert(rest[i] == list[i + 1]);
        }
        lemma_joined_first(list);
        lemma_pieces_of_joined(rest);
        let s = joined(list);
        let head = list[0];
        assert(s =~= head.push('\n') + joined(rest));
        assert forall|k: int| 0 <= k < head.len() implies s[k] != '\n' by {
            assert(s[k] == head[k]);
            if head[k] == '\n' {
                assert(head.contains('\n'));
            }
        }
        assert(s[head.len() as int] == '\n');
        text::lemma_index_from(s, '\n', 0, head.len() as int);
        assert(s.subrange(0, head.len() as int) =~= head);
        assert(s.subrange((head.len() + 1) as int, s.len() as int) =~= joined(rest));
        assert(seq![head] + rest.push(Seq::empty()) =~= list.push(Seq::empty()));
    }
}

proof fn lemma_joined_first(list: Seq<Seq<char>>)
    requires
        list.len() > 0,
    ensures
        joined(list) == list[0].push('\n') + joined(list.drop_first()),
    decreases list.len(),
{
    if list.len() == 1 {
        assert(joined(list.drop_last()) =~= Seq::<char>::empty());
        assert(joined(list.drop_first()) =~= Seq::<char>::empty());
        assert(list.last() == list[0]);
        assert(joined(list) =~= list[0].push('\n') + joined(list.drop_first()));
    } else {
        lemma_joined_first(list.drop_last());
        assert(list.drop_first().drop_last() =~= list.drop_last().drop_first());
        assert(joined(list) =~= list[0].push('\n') + joined(list.drop_first()));
    }
}

/// No piece between newlines holds one.
proof fn lemma_pieces_without(s: Seq<char>)
    ensures
        forall|i: int|
            0 <= i < text::split_pieces(s, '\n').len() ==> !(#[trigger] text::split_pieces(
                s,
                '\n',
            )[i]).contains('\n'),
        text::split_pieces(s, '\n').len() >= 1,
    decreases s.len(),
{
    let at = text::index_from(s, '\n', 0);
    lemma_index_before(s, 0);
    let pieces = text::split_pieces(s, '\n');
    if 0 <= at < s.len() {
        let tail = s.subrange(at + 1, s.len() as int);
        lemma_pieces_without(tail);
        let more = text::split_pieces(tail, '\n');
        let head = s.subrange(0, at);
        assert forall|i: int| 0 <= i < pieces.len() implies !(#[trigger] pieces[i]).contains(
            '\n',
        ) by {
            if i == 0 {
                if head.contains('\n') {
                    let k = choose|k: int| 0 <= k < head.len() && head[k] == '\n';
                    assert(s[k] == '\n');
                }
            } else {
                assert(pieces[i] == more[i - 1]);
            }
        }
    } else {
        if s.contains('\n') {
            let k = choose|k: int| 0 <= k < s.len() && s[k] == '\n';
            assert(s[k] == '\n');
        }
    }
}

proof fn lemma_index_before(s: Seq<char>, from: int)
    requires
        0 <= from <= s.len(),
    ensures
        from <= text::index_from(s, '\n', from) <= s.len(),
        forall|k: int| from <= k < text::index_from(s, '\n', from) ==> s[k] != '\n',
    decreases s.len() - from,
{
    if from < s.len() && s[from] != '\n' {
        lemma_index_before(s, from + 1);
    }
}

/// Whether a line ends with a carriage return.
pub open spec fn ends_with_return(line: Seq<char>) -> bool {
    line.len() > 0 && line.last() == '\r'
}

/// A line without the carriage return that it ends with, if it does.
pub open spec fn without_return(line: Seq<char>) -> Seq<char> {
    text::without_suffix(line, seq!['\r'])
}

proof fn lemma_without_return(line: Seq<char>)
    ensures
        text::is_blank(without_return(line)) == text::is_blank(line),
        !ends_with_return(line) ==> without_return(line) == line,
{
    let short = without_return(line);
    if line.len() > 0 {
        let end = line.subrange(line.len() - 1, line.len() as int);
        assert(end[0] == line.last());
        if ends_with_return(line) {
            assert(end =~= seq!['\r']);
        }
    }
    text::lemma_is_blank(line);
    text::lemma_is_blank(short);
    assert(text::is_white_space('\r'));
    if short != line {
        assert(line[line.len() - 1] == '\r');
        assert forall|k: int|
            0 <= k < line.len() && text::is_blank(short) implies text::is_white_space(
            #[trigger] line[k],
        ) by {
            if k < short.len() {
                assert(short[k] == line[k]);
            }
        }
        assert forall|k: int|
            0 <= k < short.len() && text::is_blank(line) implies text::is_white_space(
            #[trigger] short[k],
        ) by {
            assert(short[k] == line[k]);
        }
    }
}

/// What the lines of a log are that has been pruned to its last entries.
proof fn lemma_lines_of_pruned(payload: Seq<char>, retain: usize)
    requires
        entries(lines(payload)).len() > retain,
    ensures
        retain > 0 ==> lines(joined(last_of(entries(lines(payload)), retain))) == last_of(
            entries(lines(payload)),
            retain,
        ).map_values(|line: Seq<char>| without_return(line)),
        forall|i: int|
            0 <= i < retain ==> !text::is_blank(
                #[trigger] last_of(entries(lines(payload)), retain)[i],
            ),
        entries(lines(seq!['\n'])) == Seq::<Seq<char>>::empty(),
{
    let all = entries(lines(payload));
    let kept = last_of(all, retain);
    lemma_pieces_without(payload);
    let test = |line: Seq<char>| !text::is_blank(line);
    let ls = lines(payload);
    assert forall|i: int| 0 <= i < kept.len() implies !(#[trigger] kept[i]).contains('\n')
        && !text::is_blank(kept[i]) by {
        let j = i + (all.len() - retain);
        assert(kept[i] == all[j]);
        assert(all.contains(all[j]));
        ls.lemma_filter_pred(test, j);
        ls.lemma_filter_contains_rev(test, all[j]);
        let k = choose|k: int| 0 <= k < ls.len() && ls[k] == all[j];
        let piece = text::split_pieces(payload, '\n')[k];
        assert(!piece.contains('\n'));
        if ls[k].contains('\n') {
            let m = choose|m: int| 0 <= m < ls[k].len() && ls[k][m] == '\n';
            assert(piece[m] == '\n');
        }
    }
    let rest = seq!['\n'];
    text::lemma_index_from(rest, '\n', 0, 0);
    let tail = rest.subrange(1, 1);
    text::lemma_index_from(tail, '\n', 0, 0);
    let pieces = text::split_pieces(rest, '\n');
    assert(rest.subrange(0, 0) =~= Seq::<char>::empty());
    assert(tail =~= Seq::<char>::empty());
    assert(text::split_pieces(tail, '\n') =~= seq![tail]);
    assert(rest[0] == '\n');
    assert(pieces == seq![rest.subrange(0, 0)] + text::split_pieces(tail, '\n'));
    assert(pieces =~= seq![Seq::<char>::empty(), Seq::<char>::empty()]);
    let l = lines(rest);
    assert(l.len() == 1);
    assert(l[0].len() == 0);
    assert(text::is_blank(l[0]));
    assert forall|line: Seq<char>| l.contains(line) implies !test(line) by {
        assert(line == l[0]);
    }
    l.lemma_all_neg_filter_empty(test);
    assert(entries(l) =~= Seq::empty());
    if retain > 0 {
        lemma_pieces_of_joined(kept);
        assert(lines(joined(kept)) =~= kept.map_values(|line: Seq<char>| without_return(line)));
    }
}

/// A log that has been pruned holds the last entries that it held before, and no others. An entry
/// that ends with a carriage return loses it; the others are as they were.
pub proof fn law_pruning_keeps_the_last_entries(payload: Seq<char>, retain: usize)
    ensures
        pruned(payload, retain) matches Some((rest, removed)) ==> {
            let kept = last_of(entries(lines(payload)), retain);
            &&& entries(lines(rest)) == kept.map_values(|line: Seq<char>| without_return(line))
            &&& removed == entries(lines(payload)).len() - retain
            &&& (forall|i: int| 0 <= i < kept.len() ==> !ends_with_return(#[trigger] kept[i]))
                ==> entries(lines(rest)) == kept
        },
        pruned(payload, retain) is None ==> entries(lines(payload)) == last_of(
            entries(lines(payload)),
            retain,
        ),
{
    let all = entries(lines(payload));
    if all.len() > retain {
        let kept = last_of(all, retain);
        let short = kept.map_values(|line: Seq<char>| without_return(line));
        let test = |line: Seq<char>| !text::is_blank(line);
        lemma_lines_of_pruned(payload, retain);
        assert forall|i: int| 0 <= i < short.len() implies test(#[trigger] short[i]) && (
        !ends_with_return(kept[i]) ==> short[i] == kept[i]) by {
            lemma_without_return(kept[i]);
        }
        if retain > 0 {
            lemma_all_pass(short, test);
        } else {
            assert(short =~= Seq::empty());
        }
        if forall|i: int| 0 <= i < kept.len() ==> !ends_with_return(#[trigger] kept[i]) {
            assert(short =~= kept);
        }
    }
}

/// To prune a log twice to the same number of entries is to prune it once: the second time there
/// is nothing to take out.
pub proof fn law_pruning_twice(payload: Seq<char>, retain: usize)
    ensures
        pruned(payload, retain) matches Some((rest, _)) ==> pruned(rest, retain) is None,
{
    if entries(lines(payload)).len() > retain {
        law_pruning_keeps_the_last_entries(payload, retain);
    }
}

/// Whether a text can stand in a log as an entry: it is one line, is not blank, and does not end
/// with a carriage return.
pub open spec fn is_entry(line: Seq<char>) -> bool {
    !line.contains('\n') && !text::is_blank(line) && !ends_with_return(line)
}

/// The export of a log that was written entry by entry holds its newest entries, as many as are
/// asked for or all if there are fewer, oldest first: from the end on, entry by entry, it is the log.
pub proof fn law_export_gives_the_newest_entries(list: Seq<Seq<char>>, limit: usize)
    requires
        forall|i: int| 0 <= i < list.len() ==> is_entry(#[trigger] list[i]),
    ensures
        exported(joined(list), limit).len() == (if list.len() < limit {
            list.len()
        } else {
            limit as nat
        }),
        forall|k: int|
            1 <= k <= exported(joined(list), limit).len() ==> #[trigger] exported(
                joined(list),
                limit,
            )[exported(joined(list), limit).len() - k] == list[list.len() - k],
{
    lemma_pieces_of_joined(list);
    let all = lines(joined(list));
    assert(all =~= list) by {
        assert forall|i: int| 0 <= i < list.len() implies all[i] == list[i] by {
            assert(is_entry(list[i]));
            lemma_without_return(list[i]);
        }
    }
    let kept = last_of(list, limit);
    let test = |line: Seq<char>| !text::is_blank(line);
    assert forall|i: int| 0 <= i < kept.len() implies test(#[trigger] kept[i]) by {
        let from = list.len() - kept.len();
        assert(kept[i] == list[from + i]);
        assert(is_entry(list[from + i]));
    }
    lemma_all_pass(kept, test);
}

/// A log that was written entry by entry, pruned to a number of entries, holds its newest ones as
/// they were, and is pruned exactly if it has more.
pub proof fn law_pruning_keeps_the_newest_entries(list: Seq<Seq<char>>, retain: usize)
    requires
        retain > 0,
        forall|i: int| 0 <= i < list.len() ==> is_entry(#[trigger] list[i]),
    ensures
        pruned(joined(list), retain) is Some <==> list.len() > retain,
        list.len() > retain ==> pruned(joined(list), retain) == Some(
            (
                joined(list.subrange(list.len() - retain, list.len() as int)),
                (list.len() - retain) as nat,
            ),
        ),
{
    lemma_pieces_of_joined(list);
    let all = lines(joined(list));
    assert(all =~= list) by {
        assert forall|i: int| 0 <= i < list.len() implies all[i] == list[i] by {
            assert(is_entry(list[i]));
            lemma_without_return(list[i]);
        }
    }
    let test = |line: Seq<char>| !text::is_blank(line);
    assert forall|i: int| 0 <= i < list.len() implies test(#[trigger] list[i]) by {
        assert(is_entry(list[i]));
    }
    lemma_all_pass(list, test);
    if list.len() > retain {
        assert(last_of(list, retain) =~= list.subrange(list.len() - retain, list.len() as int));
    }
}

proof fn lemma_all_pass(list: Seq<Seq<char>>, test: spec_fn(Seq<char>) -> bool)
    requires
        forall|i: int| 0 <= i < list.len() ==> test(#[trigger] list[i]),
    ensures
        list.filter(test) == list,
    decreases list.len(),
{
    reveal(Seq::filter);
    if list.len() > 0 {
        let short = list.drop_last();
        assert forall|i: int| 0 <= i < short.len() implies test(#[trigger] short[i]) by {
            assert(short[i] == list[i]);
        }
        lemma_all_pass(short, test);
        assert(test(list[list.len() - 1]));
        assert(list =~= short.push(list.last()));
    } else {
        assert(list.filter(test) =~= list);
    }
}

// ---------------------------------------------------------------------------------------------
// Where traces are sent
// ---------------------------------------------------------------------------------------------

/// How traces are sent.
#[derive(Debug, Clone, Copy, PartialEq, Eq, Structural)]
pub enum OtlpProtocol {
    Grpc,
    HttpBinary,
}

/// The protocol of a name; letter case and white space around it do not count.
pub open spec fn protocol_of(name: Seq<char>) -> Option<OtlpProtocol> {
    let word = text::lowercased(text::trimmed(name));
    if word == ""@ || word == "grpc"@ {
        Some(OtlpProtocol::Grpc)
    } else if word == "http"@ || word == "http/protobuf"@ || word == "http_binary"@ || word
        == "http-binary"@ {
        Some(OtlpProtocol::HttpBinary)
    } else {
        None
    }
}

/// The protocol of a name.
pub fn normalize_otlp_protocol(protocol: &str) -> (r: Result<OtlpProtocol>)
    ensures
        match protocol_of(protocol@) {
            Some(known) => r is Ok && r->Ok_0 == known,
            None => r is Err && r->Err_0@ == ErrorModel::Validation(
                "unsupported OTLP protocol '"@ + text::lowercased(text::trimmed(protocol@)) + "'"@,
            ),
        },
{
    let trimmed: String = text::trim(protocol);
    let word: String = text::to_lower(trimmed.as_str());
    let w: &str = word.as_str();
    if text::same_text(w, "") || text::same_text(w, "grpc") {
        return Ok(OtlpProtocol::Grpc);
    }
    if text::same_text(w, "http") || text::same_text(w, "http/protobuf") || text::same_text(
        w,
        "http_binary",
    ) || text::same_text(w, "http-binary") {
        return Ok(OtlpProtocol::HttpBinary);
    }
    Err(Undr9Error::Validation(join3("unsupported OTLP protocol '", w, "'")))
}

/// Every protocol that a configuration accepts is known.
pub proof fn law_accepted_protocols_are_known(name: Seq<char>)
    ensures
        ({
            let word = text::lowercased(text::trimmed(name));
            (word.len() == 0 || crate::config::names_protocol(word)) <==> protocol_of(
                name,
            ) is Some
        }),
{
    reveal_strlit("");
    let word = text::lowercased(text::trimmed(name));
    if word.len() == 0 {
        assert(word =~= ""@);
    }
}

/// What has been read of a list of headers.
pub struct HeadersModel {
    pub headers: Map<Seq<char>, Seq<char>>,
    pub error: Option<ErrorModel>,
}

/// What is read of pieces of a list of headers: of each, a key and a value around the first equals
/// sign; blank pieces are skipped, and one without an equals sign ends the reading.
pub open spec fn headers_of(pieces: Seq<Seq<char>>) -> HeadersModel
    decreases pieces.len(),
{
    if pieces.len() == 0 {
        HeadersModel { headers: Map::empty(), error: None }
    } else {
        let before = headers_of(pieces.drop_last());
        let entry = text::trimmed(pieces.last());
        if before.error is Some || entry.len() == 0 {
            before
        } else {
            match text::split_once_parts(entry, '=') {
                Some(parts) => HeadersModel {
                    headers: before.headers.insert(
                        text::trimmed(parts.0),
                        text::trimmed(parts.1),
                    ),
                    error: None,
                },
                None => HeadersModel {
                    error: Some(
                        ErrorModel::Validation(
                            "invalid observability.otlp_headers entry '"@ + entry
                                + "', expected key=value"@,
                        ),
                    ),
                    ..before
                },
            }
        }
    }
}

proof fn lemma_error_stays(pieces: Seq<Seq<char>>, i: int)
    requires
        0 <= i <= pieces.len(),
        headers_of(pieces.take(i)).error is Some,
    ensures
        headers_of(pieces) == headers_of(pieces.take(i)),
    decreases pieces.len(),
{
    if i == pieces.len() {
        assert(pieces.take(i) =~= pieces);
    } else {
        assert(pieces.drop_last().take(i) =~= pieces.take(i));
        lemma_error_stays(pieces.drop_last(), i);
    }
}

/// The headers of a list that commas part.
pub fn parse_otlp_headers(headers: &str) -> (r: Result<OrderedMap<String, String>>)
    ensures
        ({
            let read = headers_of(text::split_pieces(headers@, ','));
            &&& r is Ok <==> read.error is None
            &&& r matches Ok(map) ==> map@ == read.headers
            &&& r matches Err(e) ==> read.error == Some(e@)
        }),
{
    let pieces: Vec<String> = text::split(headers, ',');
    let ghost all = text::texts(pieces@);
    let mut parsed: OrderedMap<String, String> = OrderedMap::new();
    let mut i: usize = 0;
    proof {
        assert(all.take(0).len() == 0);
    }
    while i < pieces.len()
        invariant
            i <= pieces.len(),
            all == text::texts(pieces@),
            all == text::split_pieces(headers@, ','),
            headers_of(all.take(i as int)).error is None,
            parsed@ == headers_of(all.take(i as int)).headers,
        decreases pieces.len() - i,
    {
        proof {
            assert(all.take(i + 1).drop_last() =~= all.take(i as int));
            assert(all.take(i + 1).last() == pieces@[i as int]@);
        }
        let entry: String = text::trim(pieces[i].as_str());
        proof {
            reveal_strlit("");
            if entry@.len() == 0 {
                assert(entry@ =~= ""@);
            }
        }
        if !text::same_text(entry.as_str(), "") {
            match text::split_once(entry.as_str(), '=') {
                Some(parts) => {
                    parsed.insert(
                        text::trim(parts.0.as_str()),
                        text::trim(parts.1.as_str()),
                    );
                },
                None => {
                    proof {
                        lemma_error_stays(all, i + 1);
                    }
                    return Err(
                        Undr9Error::Validation(
                            join3(
                                "invalid observability.otlp_headers entry '",
                                entry.as_str(),
                                "', expected key=value",
                            ),
                        ),
                    );
                },
            }
        }
        i = i + 1;
    }
    proof {
        assert(all.take(i as int) =~= all);
    }
    Ok(parsed)
}

/// Whether a character may stand in the name of a header.
pub open spec fn is_token_char(c: char) -> bool {
    text::is_ascii_alphanumeric(c) || c == '!' || c == '#' || c == '$' || c == '%' || c == '&' || c
        == '\'' || c == '*' || c == '+' || c == '-' || c == '.' || c == '^' || c == '_' || c == '`'
        || c == '|' || c == '~'
}

/// Whether a text is the name of a header.
pub open spec fn is_header_name(s: Seq<char>) -> bool {
    1 <= s.len() <= 65535 && forall|i: int| 0 <= i < s.len() ==> is_token_char(#[trigger] s[i])
}

/// Whether a text is the value of a header: it holds no control character but tabs.
pub open spec fn is_header_value(s: Seq<char>) -> bool {
    forall|i: int| 0 <= i < s.len() ==> (('\u{20}' <= #[trigger] s[i] && s[i] != '\u{7f}') || s[i]
        == '\t')
}

/// `http::header::HeaderName::from_bytes` on the bytes of a text: it accepts one to 65535 token
/// characters and gives them in lower case; else it gives an error, which is shown as
/// `invalid HTTP header name`.
#[verifier::external_body]
fn header_name(key: &str) -> (r: std::result::Result<String, String>)
    ensures
        match r {
            Ok(name) => is_header_name(key@) && name@ == text::lowercased(key@),
            Err(message) => !is_header_name(key@) && message@ == "invalid HTTP header name"@,
        },
{
    match http::header::HeaderName::from_bytes(key.as_bytes()) {
        Ok(name) => Ok(name.as_str().to_owned()),
        Err(error) => Err(error.to_string()),
    }
}

/// `http::HeaderValue::from_str`: it accepts a text without control characters other than tabs,
/// as it is; else it gives an error, which is shown as `failed to parse header value`.
#[verifier::external_body]
fn header_value(value: &str) -> (r: std::result::Result<(), String>)
    ensures
        match r {
            Ok(_) => is_header_value(value@),
            Err(message) => !is_header_value(value@) && message@
                == "failed to parse header value"@,
        },
{
    match http::HeaderValue::from_str(value) {
        Ok(_) => Ok(()),
        Err(error) => Err(error.to_string()),
    }
}

/// What is wrong with a header, if anything is.
pub open spec fn header_error(key: Seq<char>, value: Seq<char>) -> Option<ErrorModel> {
    if !is_header_name(key) {
        Some(
            ErrorModel::Validation(
                "invalid observability.otlp_headers key '"@ + key + "': "@
                    + "invalid HTTP header name"@,
            ),
        )
    } else if !is_header_value(value) {
        Some(
            ErrorModel::Validation(
                "invalid observability.otlp_headers value for '"@ + key + "': "@
                    + "failed to parse header value"@,
            ),
        )
    } else {
        None
    }
}

/// What has been made of headers: later ones take the place of earlier ones of the same name, in
/// whatever letter case it is written.
pub struct MetadataModel {
    pub metadata: Map<Seq<char>, Seq<char>>,
    pub error: Option<ErrorModel>,
}

/// What is made of headers, in the order of their keys.
pub open spec fn metadata_of(headers: Map<Seq<char>, Seq<char>>, keys: Seq<Seq<char>>) -> MetadataModel
    decreases keys.len(),
{
    if keys.len() == 0 {
        MetadataModel { metadata: Map::empty(), error: None }
    } else {
        let before = metadata_of(headers, keys.drop_last());
        let key = keys.last();
        if before.error is Some {
            before
        } else {
            match header_error(key, headers[key]) {
                Some(error) => MetadataModel { error: Some(error), ..before },
                None => MetadataModel {
                    metadata: before.metadata.insert(text::lowercased(key), headers[key]),
                    error: None,
                },
            }
        }
    }
}

proof fn lemma_metadata_error_stays(
    headers: Map<Seq<char>, Seq<char>>,
    keys: Seq<Seq<char>>,
    i: int,
)
    requires
        0 <= i <= keys.len(),
        metadata_of(headers, keys.take(i)).error is Some,
    ensures
        metadata_of(headers, keys) == metadata_of(headers, keys.take(i)),
    decreases keys.len(),
{
    if i == keys.len() {
        assert(keys.take(i) =~= keys);
    } else {
        assert(keys.drop_last().take(i) =~= keys.take(i));
        lemma_metadata_error_stays(headers, keys.drop_last(), i);
    }
}

/// The metadata that headers make: their names in lower case, with their values.
pub fn build_otlp_metadata(headers: &OrderedMap<String, String>) -> (r: Result<
    OrderedMap<String, String>,
>)
    ensures
        ({
            let made = metadata_of(headers@, headers.keys());
            &&& r is Ok <==> made.error is None
            &&& r matches Ok(map) ==> map@ == made.metadata
            &&& r matches Err(e) ==> made.error == Some(e@)
        }),
{
    let count: usize = headers.len();
    let ghost keys = headers.keys();
    let mut out: OrderedMap<String, String> = OrderedMap::new();
    let mut i: usize = 0;
    proof {
        assert(keys.take(0).len() == 0);
    }
    while i < count
        invariant
            i <= count,
            count == keys.len(),
            keys == headers.keys(),
            metadata_of(headers@, keys.take(i as int)).error is None,
            out@ == metadata_of(headers@, keys.take(i as int)).metadata,
        decreases count - i,
    {
        proof {
            assert(keys.take(i + 1).drop_last() =~= keys.take(i as int));
            assert(keys.take(i + 1).last() == keys[i as int]);
        }
        let key: &String = headers.key_at(i);
        let value: &String = headers.value_at(i);
        let name: String = match header_name(key.as_str()) {
            Ok(name) => name,
            Err(message) => {
                let mut complaint: String = join3(
                    "invalid observability.otlp_headers key '",
                    key.as_str(),
                    "': ",
                );
                complaint.append(message.as_str());
                proof {
                    lemma_metadata_error_stays(headers@, keys, i + 1);
                }
                return Err(Undr9Error::Validation(complaint));
            },
        };
        match header_value(value.as_str()) {
            Ok(_) => {},
            Err(message) => {
                let mut complaint: String = join3(
                    "invalid observability.otlp_headers value for '",
                    key.as_str(),
                    "': ",
                );
                complaint.append(message.as_str());
                proof {
                    lemma_metadata_error_stays(headers@, keys, i + 1);
                }
                return Err(Undr9Error::Validation(complaint));
            },
        }
        out.insert(name, value.clone());
        i = i + 1;
    }
    proof {
        assert(keys.take(i as int) =~= keys);
    }
    Ok(out)
}

} // verus!
