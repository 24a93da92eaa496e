use std::path::PathBuf;

use chrono::{DateTime, Utc};
use vstd::prelude::*;

use crate::text::{after_char, before_char, chars_of, push_str, split_first, string_of};
use crate::types::Query;
use crate::transformer::{lemma_split_lines_nonempty, split_lines};

verus! {

#[verifier::external_type_specification]
#[verifier::external_body]
pub struct ExPathBuf(std::path::PathBuf);

/// The UTC RFC 3339 text of the time that chrono reads from `text`, if it reads
/// one.
pub uninterp spec fn utc_rfc3339(text: Seq<char>) -> Option<Seq<char>>;

/// The current time, as `chrono::Utc::now` takes it from `SystemTime::now`
/// (seconds and nanoseconds since 1970 through `DateTime::from_timestamp`),
/// written by `DateTime::to_rfc3339`.  `None` when the clock reads before 1970,
/// where `Utc::now` would panic.  Nothing is claimed of the text.
#[verifier::external_body]
fn now_text() -> Option<String> {
    match std::time::SystemTime::now().duration_since(std::time::UNIX_EPOCH) {
        Ok(d) => match DateTime::<Utc>::from_timestamp(d.as_secs() as i64, d.subsec_nanos()) {
            Some(t) => Some(t.to_rfc3339()),
            None => None,
        },
        Err(_) => None,
    }
}

/// `DateTime::parse_from_rfc3339`, taken to UTC by `with_timezone` and written
/// back by `to_rfc3339`: the result is named (`utc_rfc3339`).
#[verifier::external_body]
fn parse_time(text: &str) -> (res: Option<String>)
    ensures
        match utc_rfc3339(text@) {
            Some(t) => res is Some && res->0@ == t,
            None => res is None,
        },
{
    match DateTime::parse_from_rfc3339(text) {
        Ok(t) => Some(t.with_timezone(&Utc).to_rfc3339()),
        Err(_) => None,
    }
}

/// A looked-up text, its language, and when it was looked up (in UTC, as
/// RFC 3339 text).
pub struct HistoryItem {
    time: String,
    text: String,
    lang: String,
}

impl HistoryItem {
    /// An item for `text` in `lang`, stamped with the current time; `None` when
    /// the clock reads before 1970.
    pub fn new(text: &str, lang: &str) -> (res: Option<HistoryItem>)
        ensures
            res matches Some(item) ==> item.entry() == (text@, lang@),
    {
        match now_text() {
            Some(time) => Some(HistoryItem { time, text: text.to_owned(), lang: lang.to_owned() }),
            None => None,
        }
    }

    /// The text and its language.
    pub closed spec fn entry(&self) -> (Seq<char>, Seq<char>) {
        (self.text@, self.lang@)
    }

    /// When the text was looked up.
    pub closed spec fn time_of(&self) -> Seq<char> {
        self.time@
    }
}

/// The lines of `s` as `str::split_terminator('\n')` gives them: the pieces
/// between line breaks, without a last piece that is empty.
pub open spec fn lines_of(s: Seq<char>) -> Seq<Seq<char>> {
    let ls = split_lines(s);
    if ls.last().len() == 0 {
        ls.drop_last()
    } else {
        ls
    }
}

/// The fields of a history line, as `splitn(3, ' ')` cuts it: the time, the
/// language, and the rest (the text, spaces and all); `None` for a line with
/// fewer than two spaces.
pub open spec fn line_fields(line: Seq<char>) -> Option<(Seq<char>, Seq<char>, Seq<char>)> {
    match after_char(line, ' ') {
        None => None,
        Some(rest) => match after_char(rest, ' ') {
            None => None,
            Some(text) => Some((before_char(line, ' '), before_char(rest, ' '), text)),
        },
    }
}

/// A history line that can be read: three fields, the first a time.
pub open spec fn line_readable(line: Seq<char>) -> bool {
    line_fields(line) matches Some((t, _, _)) && utc_rfc3339(t) is Some
}

/// The UTC time text of a readable history line.
pub open spec fn line_time(line: Seq<char>) -> Seq<char> {
    match line_fields(line) {
        Some((t, _, _)) => utc_rfc3339(t)->0,
        None => Seq::empty(),
    }
}

/// A history file text whose every line can be read.
pub open spec fn history_readable(buf: Seq<char>) -> bool {
    forall|i: int| 0 <= i < lines_of(buf).len() ==> line_readable(#[trigger] lines_of(buf)[i])
}

/// The (text, language) of a history line.
pub open spec fn line_entry(line: Seq<char>) -> (Seq<char>, Seq<char>) {
    match line_fields(line) {
        Some((_, lang, text)) => (text, lang),
        None => (Seq::empty(), Seq::empty()),
    }
}

/// A history line as `History::dump_text` writes it.
pub open spec fn history_line(time: Seq<char>, entry: (Seq<char>, Seq<char>)) -> Seq<char> {
    time + " "@ + entry.1 + " "@ + entry.0 + "\n"@
}

/// The history text for the given time texts and entries, line by line.
pub open spec fn history_text(times: Seq<Seq<char>>, entries: Seq<(Seq<char>, Seq<char>)>) -> Seq<char>
    decreases entries.len(),
{
    if entries.len() == 0 || times.len() == 0 {
        Seq::empty()
    } else {
        history_text(times.drop_last(), entries.drop_last()) + history_line(times.last(), entries.last())
    }
}

/// The lines of `s` (see `lines_of`).
pub fn text_lines(s: &str) -> (res: Vec<Vec<char>>)
    ensures
        res@.len() == lines_of(s@).len(),
        forall|i: int| 0 <= i < res@.len() ==> (#[trigger] res@[i])@ == lines_of(s@)[i],
{
    let chars = chars_of(s);
    let mut done: Vec<Vec<char>> = Vec::new();
    let mut cur: Vec<char> = Vec::new();
    let mut i: usize = 0;
    let ghost mut views: Seq<Seq<char>> = Seq::empty();
    assert(chars@.take(0) =~= Seq::<char>::empty());
    while i < chars.len()
        invariant
            i <= chars@.len(),
            chars@ == s@,
            split_lines(chars@.take(i as int)) == views.push(cur@),
            done@.len() == views.len(),
            forall|j: int| 0 <= j < done@.len() ==> (#[trigger] done@[j])@ == views[j],
        decreases chars@.len() - i,
    {
        let c = chars[i];
        assert(chars@.take(i + 1).drop_last() =~= chars@.take(i as int));
        assert(chars@.take(i + 1).last() == c);
        if c == '\n' {
            proof { views = views.push(cur@); }
            done.push(cur);
            cur = Vec::new();
            assert(split_lines(chars@.take(i + 1)) =~= views.push(cur@));
        } else {
            cur.push(c);
            assert(split_lines(chars@.take(i + 1)) =~= views.push(cur@));
        }
        i = i + 1;
    }
    assert(chars@.take(i as int) =~= s@);
    if cur.len() > 0 {
        proof { views = views.push(cur@); }
        done.push(cur);
        assert(lines_of(s@) =~= views);
    } else {
        assert(split_lines(s@).drop_last() =~= views);
    }
    done
}

/// The history of looked-up texts, and the file that keeps it.
pub struct History {
    file: PathBuf,
    items: Vec<HistoryItem>,
}

impl History {
    /// An empty history kept in `file`.
    pub fn new(file: PathBuf) -> (res: History)
        ensures
            res.entries() == Seq::<(Seq<char>, Seq<char>)>::empty(),
            res.times() == Seq::<Seq<char>>::empty(),
            res.file_path() == file,
    {
        History { file, items: Vec::new() }
    }

    /// The (text, language) of each item, oldest first.
    pub closed spec fn entries(&self) -> Seq<(Seq<char>, Seq<char>)> {
        self.items@.map_values(|it: HistoryItem| it.entry())
    }

    /// The time of each item, oldest first.
    pub closed spec fn times(&self) -> Seq<Seq<char>> {
        self.items@.map_values(|it: HistoryItem| it.time_of())
    }

    /// The file that keeps the history.
    pub closed spec fn file_path(&self) -> PathBuf {
        self.file
    }

    /// The file that keeps the history.
    pub fn file(&self) -> (res: &PathBuf)
        ensures
            *res == self.file_path(),
    {
        &self.file
    }

    /// Whether every line of a history file's text can be read (see
    /// `history_readable`).
    pub fn text_is_readable(buf: &str) -> (res: bool)
        ensures
            res == history_readable(buf@),
    {
        let lines = text_lines(buf);
        let mut i: usize = 0;
        while i < lines.len()
            invariant
                i <= lines@.len(),
                lines@.len() == lines_of(buf@).len(),
                forall|j: int| 0 <= j < lines@.len() ==> (#[trigger] lines@[j])@ == lines_of(buf@)[j],
                forall|j: int| 0 <= j < i ==> line_readable(#[trigger] lines_of(buf@)[j]),
            decreases lines@.len() - i,
        {
            assert(lines@[i as int]@ == lines_of(buf@)[i as int]);
            let (time_part, rest) = split_first(&lines[i], ' ');
            let rest = match rest {
                Some(r) => r,
                None => { return false; }
            };
            let (_, text_part) = split_first(&rest, ' ');
            if text_part.is_none() {
                return false;
            }
            let time_str = string_of(&time_part);
            if parse_time(time_str.as_str()).is_none() {
                return false;
            }
            i = i + 1;
        }
        true
    }

    /// Replaces the items by those of a history file's text, one per line
    /// (see `line_fields`); every line must be readable.
    pub fn load_text(&mut self, buf: &str)
        requires
            history_readable(buf@),
        ensures
            final(self).entries() == lines_of(buf@).map_values(|l: Seq<char>| line_entry(l)),
            final(self).times() == lines_of(buf@).map_values(|l: Seq<char>| line_time(l)),
            final(self).file_path() == old(self).file_path(),
    {
        let lines = text_lines(buf);
        let mut items: Vec<HistoryItem> = Vec::new();
        let mut i: usize = 0;
        while i < lines.len()
            invariant
                i <= lines@.len(),
                lines@.len() == lines_of(buf@).len(),
                forall|j: int| 0 <= j < lines@.len() ==> (#[trigger] lines@[j])@ == lines_of(buf@)[j],
                history_readable(buf@),
                items@.map_values(|it: HistoryItem| it.entry())
                    == lines_of(buf@).take(i as int).map_values(|l: Seq<char>| line_entry(l)),
                items@.map_values(|it: HistoryItem| it.time_of())
                    == lines_of(buf@).take(i as int).map_values(|l: Seq<char>| line_time(l)),
            decreases lines@.len() - i,
        {
            let line = &lines[i];
            assert(line_readable(lines_of(buf@)[i as int]));
            let (time_part, rest) = split_first(line, ' ');
            let rest = match rest {
                Some(r) => r,
                None => {
                    assert(false);
                    Vec::new()
                },
            };
            let (lang_part, text_part) = split_first(&rest, ' ');
            let text_part = match text_part {
                Some(t) => t,
                None => {
                    assert(false);
                    Vec::new()
                },
            };
            let time_str = string_of(&time_part);
            let time = match parse_time(time_str.as_str()) {
                Some(t) => t,
                None => {
                    assert(false);
                    String::new()
                },
            };
            let item = HistoryItem { time, text: string_of(&text_part), lang: string_of(&lang_part) };
            let ghost before = items@;
            items.push(item);
            assert(lines_of(buf@).take(i + 1) =~= lines_of(buf@).take(i as int).push(lines_of(buf@)[i as int]));
            assert(items@.map_values(|it: HistoryItem| it.entry())
                =~= before.map_values(|it: HistoryItem| it.entry()).push(line_entry(lines_of(buf@)[i as int])));
            assert(items@.map_values(|it: HistoryItem| it.time_of())
                =~= before.map_values(|it: HistoryItem| it.time_of()).push(line_time(lines_of(buf@)[i as int])));
            i = i + 1;
        }
        assert(lines_of(buf@).take(i as int) =~= lines_of(buf@));
        self.items = items;
    }

    /// Records a looked-up `text` in `lang`, at the current time.  When the
    /// clock reads before 1970 nothing is recorded and the result is `false`.
    pub fn add(&mut self, text: &str, lang: &str) -> (added: bool)
        ensures
            added ==> final(self).entries() == old(self).entries().push((text@, lang@)),
            added ==> final(self).times().len() == old(self).times().len() + 1,
            added ==> final(self).times().drop_last() == old(self).times(),
            !added ==> final(self).entries() == old(self).entries() && final(self).times() == old(self).times(),
            final(self).file_path() == old(self).file_path(),
    {
        let ghost before = self.items@;
        match HistoryItem::new(text, lang) {
            Some(item) => {
                self.items.push(item);
                assert(self.items@.map_values(|it: HistoryItem| it.entry())
                    =~= before.map_values(|it: HistoryItem| it.entry()).push((text@, lang@)));
                assert(self.items@.map_values(|it: HistoryItem| it.time_of()).drop_last()
                    =~= before.map_values(|it: HistoryItem| it.time_of()));
                true
            },
            None => false,
        }
    }

    /// Records a query whose text is short (words and phrases), with the
    /// language it is written in; long texts are not recorded.  `false` when the
    /// clock reads before 1970 and nothing could be recorded.
    pub fn record_query(&mut self, query: &Query) -> (ok: bool)
        ensures
            !query.is_short_text ==> ok && *final(self) == *old(self),
            query.is_short_text && ok ==> final(self).entries() == old(self).entries().push((query.text@, query.lang_from@)),
            query.is_short_text && ok ==> final(self).times().drop_last() == old(self).times()
                && final(self).times().len() == old(self).times().len() + 1,
            query.is_short_text && !ok ==> final(self).entries() == old(self).entries() && final(self).times() == old(self).times(),
            final(self).file_path() == old(self).file_path(),
    {
        if query.is_short_text {
            self.add(query.text.as_str(), query.lang_from.as_str())
        } else {
            true
        }
    }

    /// The text of the history file: one line per item, its time, its language
    /// and its text, separated by spaces.
    pub fn dump_text(&self) -> (res: String)
        ensures
            res@ == history_text(self.times(), self.entries()),
    {
        let mut out = String::new();
        let mut i: usize = 0;
        while i < self.items.len()
            invariant
                i <= self.items@.len(),
                out@ == history_text(self.times().take(i as int), self.entries().take(i as int)),
            decreases self.items@.len() - i,
        {
            let item = &self.items[i];
            push_str(&mut out, item.time.as_str());
            push_str(&mut out, " ");
            push_str(&mut out, item.lang.as_str());
            push_str(&mut out, " ");
            push_str(&mut out, item.text.as_str());
            push_str(&mut out, "\n");
            proof {
                let e = self.entries();
                let t = self.times();
                assert(e.take(i + 1).drop_last() =~= e.take(i as int));
                assert(t.take(i + 1).drop_last() =~= t.take(i as int));
                assert(e.take(i + 1).last() == item.entry());
                assert(t.take(i + 1).last() == item.time_of());
                assert(out@ =~= history_text(t.take(i + 1), e.take(i + 1)));
            }
            i = i + 1;
        }
        assert(self.entries().take(i as int) =~= self.entries());
        assert(self.times().take(i as int) =~= self.times());
        out
    }
}

/// The line of an item without its line break: time, language and text,
/// separated by spaces.
pub open spec fn line_content(time: Seq<char>, entry: (Seq<char>, Seq<char>)) -> Seq<char> {
    time + seq![' '] + entry.1 + seq![' '] + entry.0
}

/// The lines that `history_text` writes, without their line breaks.
pub open spec fn dump_lines(times: Seq<Seq<char>>, entries: Seq<(Seq<char>, Seq<char>)>) -> Seq<Seq<char>>
    decreases entries.len(),
{
    if entries.len() == 0 || times.len() == 0 {
        Seq::empty()
    } else {
        dump_lines(times.drop_last(), entries.drop_last()).push(line_content(times.last(), entries.last()))
    }
}

/// Cutting a text at the first `c` that follows a part without `c` gives that
/// part and the rest.
proof fn lemma_cut_at_first(a: Seq<char>, c: char, b: Seq<char>)
    requires
        !a.contains(c),
    ensures
        before_char(a + seq![c] + b, c) == a,
        after_char(a + seq![c] + b, c) == Some(b),
    decreases a.len(),
{
    let s = a + seq![c] + b;
    if a.len() == 0 {
        assert(s[0] == c);
        assert(s.drop_first() =~= b);
        assert(a =~= Seq::<char>::empty());
    } else {
        let a2 = a.drop_first();
        assert(!a2.contains(c)) by {
            if a2.contains(c) {
                let i = choose|i: int| 0 <= i < a2.len() && a2[i] == c;
                assert(a[i + 1] == c);
            }
        }
        lemma_cut_at_first(a2, c, b);
        assert(s[0] == a[0]);
        assert(a[0] != c);
        assert(s.drop_first() =~= a2 + seq![c] + b);
        assert(seq![a[0]] + a2 =~= a);
    }
}

/// Appending characters other than line breaks extends the last line.
proof fn lemma_split_lines_extend(s: Seq<char>, x: Seq<char>)
    requires
        !x.contains('\n'),
    ensures
        split_lines(s + x) == split_lines(s).update(split_lines(s).len() - 1, split_lines(s).last() + x),
    decreases x.len(),
{
    lemma_split_lines_nonempty(s);
    if x.len() == 0 {
        assert(s + x =~= s);
        assert(split_lines(s).last() + x =~= split_lines(s).last());
        assert(split_lines(s).update(split_lines(s).len() - 1, split_lines(s).last()) =~= split_lines(s));
    } else {
        let x2 = x.drop_last();
        assert(!x2.contains('\n')) by {
            if x2.contains('\n') {
                let i = choose|i: int| 0 <= i < x2.len() && x2[i] == '\n';
                assert(x[i] == '\n');
            }
        }
        lemma_split_lines_extend(s, x2);
        assert((s + x).drop_last() =~= s + x2);
        assert((s + x).last() == x.last());
        assert(x[x.len() - 1] == x.last());
        assert(x.last() != '\n');
        lemma_split_lines_nonempty(s + x2);
        let l = split_lines(s);
        assert((l.last() + x2).push(x.last()) =~= l.last() + x);
        assert(l.update(l.len() - 1, l.last() + x2).update(l.len() - 1, (l.last() + x2).push(x.last()))
            =~= l.update(l.len() - 1, l.last() + x));
    }
}

/// The pieces of a history text between its line breaks are its lines, and an
/// empty piece after the last line break.
proof fn lemma_dump_split(times: Seq<Seq<char>>, entries: Seq<(Seq<char>, Seq<char>)>)
    requires
        times.len() == entries.len(),
        forall|i: int| 0 <= i < times.len() ==> !(#[trigger] times[i]).contains('\n'),
        forall|i: int| 0 <= i < entries.len() ==> !(#[trigger] entries[i]).0.contains('\n') && !entries[i].1.contains('\n'),
    ensures
        split_lines(history_text(times, entries)) == dump_lines(times, entries).push(Seq::empty()),
    decreases entries.len(),
{
    reveal_strlit(" ");
    reveal_strlit("\n");
    if entries.len() == 0 {
        assert(split_lines(Seq::empty()) =~= seq![Seq::<char>::empty()]);
        assert(Seq::<Seq<char>>::empty().push(Seq::empty()) =~= seq![Seq::<char>::empty()]);
    } else {
        let t0 = times.drop_last();
        let e0 = entries.drop_last();
        assert forall|i: int| 0 <= i < t0.len() implies !(#[trigger] t0[i]).contains('\n') by {
            assert(t0[i] == times[i]);
        }
        assert forall|i: int| 0 <= i < e0.len() implies !(#[trigger] e0[i]).0.contains('\n') && !e0[i].1.contains('\n') by {
            assert(e0[i] == entries[i]);
        }
        lemma_dump_split(t0, e0);
        let h = history_text(t0, e0);
        let t = times.last();
        let e = entries.last();
        assert(times[times.len() - 1] == t);
        assert(entries[entries.len() - 1] == e);
        let c = line_content(t, e);
        assert(!c.contains('\n')) by {
            if c.contains('\n') {
                let i = choose|i: int| 0 <= i < c.len() && c[i] == '\n';
                if i < t.len() {
                    assert(t[i] == '\n');
                } else if i == t.len() {
                } else if i < t.len() + 1 + e.1.len() {
                    assert(e.1[i - t.len() - 1] == '\n');
                } else if i == t.len() + 1 + e.1.len() {
                } else {
                    assert(e.0[i - t.len() - 2 - e.1.len()] == '\n');
                }
            }
        }
        lemma_split_lines_extend(h, c);
        let l = dump_lines(t0, e0);
        assert(l.push(Seq::empty()).update(l.len() as int, Seq::<char>::empty() + c) =~= l.push(c));
        assert(history_text(times, entries) == h + history_line(t, e));
        assert(history_line(t, e) =~= c + seq!['\n']);
        assert(h + (c + seq!['\n']) =~= (h + c).push('\n'));
        assert((h + c).push('\n').drop_last() =~= h + c);
        assert(dump_lines(times, entries) == l.push(c));
    }
}

/// What `dump_text` writes, `load_text` reads back: for items whose times are
/// UTC RFC 3339 texts as chrono writes them, whose languages hold no space or
/// line break and whose texts hold no line break, the text of the history file
/// is readable, and reading it gives the same texts, languages and times.
pub proof fn lemma_load_reads_dump(times: Seq<Seq<char>>, entries: Seq<(Seq<char>, Seq<char>)>)
    requires
        times.len() == entries.len(),
        forall|i: int| 0 <= i < times.len() ==> !(#[trigger] times[i]).contains(' ') && !times[i].contains('\n')
            && utc_rfc3339(times[i]) == Some(times[i]),
        forall|i: int| 0 <= i < entries.len() ==> !(#[trigger] entries[i]).1.contains(' ') && !entries[i].1.contains('\n')
            && !entries[i].0.contains('\n'),
    ensures
        history_readable(history_text(times, entries)),
        lines_of(history_text(times, entries)).map_values(|l: Seq<char>| line_entry(l)) == entries,
        lines_of(history_text(times, entries)).map_values(|l: Seq<char>| line_time(l)) == times,
{
    lemma_dump_split(times, entries);
    lemma_dump_lines(times, entries);
    let text = history_text(times, entries);
    let ls = dump_lines(times, entries);
    assert(ls.push(Seq::empty()).last().len() == 0);
    assert(ls.push(Seq::<char>::empty()).drop_last() =~= ls);
    assert(lines_of(text) == ls);
    assert forall|i: int| 0 <= i < lines_of(text).len() implies line_readable(#[trigger] lines_of(text)[i]) by {
        assert(ls[i] == line_content(times[i], entries[i]));
        lemma_line_fields(times[i], entries[i]);
    }
    let m1 = ls.map_values(|l: Seq<char>| line_entry(l));
    let m2 = ls.map_values(|l: Seq<char>| line_time(l));
    assert forall|i: int| 0 <= i < entries.len() implies #[trigger] m1[i] == entries[i] by {
        lemma_line_fields(times[i], entries[i]);
    }
    assert forall|i: int| 0 <= i < times.len() implies #[trigger] m2[i] == times[i] by {
        lemma_line_fields(times[i], entries[i]);
    }
    assert(m1 =~= entries);
    assert(m2 =~= times);
}

/// The fields of an item's line are its time, language and text.
proof fn lemma_line_fields(t: Seq<char>, e: (Seq<char>, Seq<char>))
    requires
        !t.contains(' '),
        !e.1.contains(' '),
    ensures
        line_fields(line_content(t, e)) == Some((t, e.1, e.0)),
{
    let c = line_content(t, e);
    let rest = e.1 + seq![' '] + e.0;
    assert(c =~= t + seq![' '] + rest);
    lemma_cut_at_first(t, ' ', rest);
    lemma_cut_at_first(e.1, ' ', e.0);
}

/// The lines of a history text, one per item, in order.
proof fn lemma_dump_lines(times: Seq<Seq<char>>, entries: Seq<(Seq<char>, Seq<char>)>)
    requires
        times.len() == entries.len(),
    ensures
        dump_lines(times, entries).len() == entries.len(),
        forall|i: int| 0 <= i < entries.len() ==> #[trigger] dump_lines(times, entries)[i] == line_content(times[i], entries[i]),
    decreases entries.len(),
{
    if entries.len() > 0 {
        let t0 = times.drop_last();
        let e0 = entries.drop_last();
        lemma_dump_lines(t0, e0);
        assert forall|i: int| 0 <= i < entries.len() implies #[trigger] dump_lines(times, entries)[i] == line_content(times[i], entries[i]) by {
            if i < e0.len() {
                assert(t0[i] == times[i]);
                assert(e0[i] == entries[i]);
            }
        }
    }
}

/// Adding an item appends its line to what `dump_text` writes.
pub proof fn lemma_add_appends_line(before: History, after: History, text: Seq<char>, lang: Seq<char>)
    requires
        after.entries() == before.entries().push((text, lang)),
        after.times().len() == before.times().len() + 1,
        after.times().drop_last() == before.times(),
    ensures
        history_text(after.times(), after.entries())
            == history_text(before.times(), before.entries()) + history_line(after.times().last(), (text, lang)),
{
    assert(after.entries().drop_last() =~= before.entries());
    assert(after.entries().last() == (text, lang));
}

} // verus!
