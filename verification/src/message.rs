//! The message source parser.
//!
//! A message is a label followed by lines of quoted text. Markers inside
//! the text break it into lines and pages; `$` ends the message.

use crate::error::Error;
use crate::label::{label, read_label};
use crate::text::{
    after_first_word, contains, find, find_word, lines, pieces, split_lines, split_on,
    split_words, strings, strip, texts, to_chars, to_text, trim, trimmed, without, word_start,
    words, Class,
};
use vstd::prelude::*;
use vstd::slice::slice_subrange;

verus! {

/// A labelled dialogue text.
#[derive(Debug, Clone, PartialEq, Eq)]
pub struct Message {
    /// The label without its `::`.
    pub name: String,
    /// The address that the label gives.
    pub location: u32,
    /// The pages of the text, each a list of lines.
    pub pages: Vec<Vec<String>>,
}

/// The model of a [`Message`].
pub struct MessageView {
    pub name: Seq<char>,
    pub location: u32,
    pub pages: Seq<Seq<Seq<char>>>,
}

impl View for Message {
    type V = MessageView;

    open spec fn view(&self) -> MessageView {
        MessageView {
            name: self.name@,
            location: self.location,
            pages: page_views(self.pages@),
        }
    }
}

/// The models of a list of pages.
pub open spec fn page_views(v: Seq<Vec<String>>) -> Seq<Seq<Seq<char>>> {
    Seq::new(v.len(), |i: int| strings(v[i]@))
}

/// The models of a list of messages.
pub open spec fn message_views(v: Seq<Message>) -> Seq<MessageView> {
    Seq::new(v.len(), |i: int| v[i]@)
}

/// The pages of a message while it is read: the finished ones, and the
/// lines of the page in progress.
pub struct Pages {
    pub done: Seq<Seq<Seq<char>>>,
    pub open: Seq<Seq<char>>,
}

/// The text of a message line: what stands between the first two double
/// quotes behind the first word, or behind the only one.
pub open spec fn quoted(line: Seq<char>) -> Option<Seq<char>> {
    let cut = pieces(trim(after_first_word(line)), '"');
    if cut.len() < 2 {
        None
    } else {
        Some(cut[1])
    }
}

/// Whether a text ends its message.
pub open spec fn ends_message(t: Seq<char>) -> bool {
    contains(t, "$"@)
}

/// The pages of a message whose last text is `t`: the text without its
/// `$` closes the page in progress.
pub open spec fn finish(p: Pages, t: Seq<char>) -> Seq<Seq<Seq<char>>> {
    p.done.push(p.open.push(without(t, "$"@)))
}

/// The pages after a text that does not end the message.
///
/// With `\p` in it, the text without that marker closes the page in
/// progress. Then, with `\n` in it, the text without that marker is a line
/// of the page in progress; and the same again for `\l`.
pub open spec fn extend(p: Pages, t: Seq<char>) -> Pages {
    let a = if contains(t, "\\p"@) {
        Pages { done: p.done.push(p.open.push(without(t, "\\p"@))), open: Seq::empty() }
    } else {
        p
    };
    let b = if contains(t, "\\n"@) {
        Pages { done: a.done, open: a.open.push(without(t, "\\n"@)) }
    } else {
        a
    };
    if contains(t, "\\l"@) {
        Pages { done: b.done, open: b.open.push(without(t, "\\l"@)) }
    } else {
        b
    }
}

/// The pages of the message whose text continues at line `at`, and the
/// line behind its last one.
///
/// Every line needs a first word and a quoted text; the source may not end
/// before a text with `$` in it.
pub open spec fn collect(ls: Seq<Seq<char>>, at: int, p: Pages) -> Result<
    (Seq<Seq<Seq<char>>>, int),
    Error,
>
    decreases ls.len() - at,
{
    if at < 0 || at >= ls.len() {
        Err(Error::EndOfFile("message"))
    } else if word_start(ls[at]) >= ls[at].len() {
        Err(Error::NoCommand(at as usize))
    } else {
        match quoted(ls[at]) {
            None => Err(Error::NoArguments(at as usize)),
            Some(t) => if ends_message(t) {
                Ok((finish(p, t), at + 1))
            } else {
                collect(ls, at + 1, extend(p, t))
            },
        }
    }
}

/// A message that was read ends behind the line it started on, within the
/// lines.
pub proof fn lemma_collect(ls: Seq<Seq<char>>, at: int, p: Pages)
    ensures
        collect(ls, at, p) matches Ok(r) ==> at < r.1 <= ls.len(),
    decreases ls.len() - at,
{
    if 0 <= at < ls.len() && word_start(ls[at]) < ls[at].len() {
        match quoted(ls[at]) {
            None => {},
            Some(t) => {
                if !ends_message(t) {
                    lemma_collect(ls, at + 1, extend(p, t));
                }
            },
        }
    }
}

/// The messages of the lines from `at` on, behind those already read, when
/// line `at` stands outside any message.
///
/// A blank line is passed over. Any other line must be a label, whatever
/// its first word looks like, and the text of its message follows.
pub open spec fn scan(ls: Seq<Seq<char>>, at: int, read: Seq<MessageView>) -> Result<
    Seq<MessageView>,
    Error,
>
    decreases ls.len() - at,
{
    if at < 0 || at >= ls.len() {
        Ok(read)
    } else {
        let ws = words(ls[at], Class::Space);
        if ws.len() == 0 {
            scan(ls, at + 1, read)
        } else {
            match label(ws, at as usize) {
                Err(e) => Err(e),
                Ok((name, location)) => {
                    match collect(ls, at + 1, Pages { done: Seq::empty(), open: Seq::empty() }) {
                        Err(e) => Err(e),
                        Ok((pages, next)) => {
                            proof {
                                lemma_collect(
                                    ls,
                                    at + 1,
                                    Pages { done: Seq::empty(), open: Seq::empty() },
                                );
                            }
                            scan(ls, next, read.push(MessageView { name, location, pages }))
                        },
                    }
                },
            }
        }
    }
}

/// The messages of a source text, or the first error in it.
pub open spec fn messages_of(text: Seq<char>) -> Result<Seq<MessageView>, Error> {
    scan(lines(text), 0, Seq::empty())
}

/// Whether the outcome of a parse is the one the model gives.
pub open spec fn agrees(
    got: Result<Vec<Message>, Error>,
    want: Result<Seq<MessageView>, Error>,
) -> bool {
    match (got, want) {
        (Ok(messages), Ok(views)) => message_views(messages@) == views,
        (Err(e), Err(f)) => e == f,
        _ => false,
    }
}

/// Whether a block read by the executable code is the one the model
/// gives.
pub open spec fn block_agrees(
    got: Result<(Vec<Vec<String>>, usize), Error>,
    want: Result<(Seq<Seq<Seq<char>>>, int), Error>,
) -> bool {
    match (got, want) {
        (Ok((pages, next)), Ok((views, n))) => page_views(pages@) == views && next == n,
        (Err(e), Err(f)) => e == f,
        _ => false,
    }
}

/// Executable form of [`quoted`].
pub fn read_quoted<'a>(line: &'a [char]) -> (r: Option<&'a [char]>)
    ensures
        match r {
            Some(t) => quoted(line@) == Some(t@),
            None => quoted(line@) is None,
        },
{
    let (_a, b) = find_word(line);
    let rest = trimmed(slice_subrange(line, b, line.len()));
    let cut = split_on(rest, '"');
    if cut.len() < 2 {
        None
    } else {
        proof {
            assert(texts(cut@)[1] == cut@[1]@);
        }
        Some(cut[1])
    }
}

/// The text `t` without the marker `mark`, as a string.
fn cleaned(t: &[char], mark: &str) -> (out: String)
    ensures
        out@ == without(t@, mark@),
{
    let pat = to_chars(mark);
    let kept = strip(t, pat.as_slice());
    to_text(kept.as_slice())
}

/// Whether the marker `mark` occurs in the text `t`.
fn marked(t: &[char], mark: &str) -> (r: bool)
    ensures
        r == contains(t@, mark@),
{
    let pat = to_chars(mark);
    find(t, pat.as_slice())
}

/// Reads the text of the message that continues at line `from`: its pages
/// and the line behind its last one.
pub fn read_pages(lines: &Vec<&[char]>, from: usize) -> (r: Result<
    (Vec<Vec<String>>, usize),
    Error,
>)
    requires
        from <= lines.len(),
    ensures
        block_agrees(
            r,
            collect(texts(lines@), from as int, Pages { done: Seq::empty(), open: Seq::empty() }),
        ),
{
    let ghost ls = texts(lines@);
    let ghost goal = collect(ls, from as int, Pages { done: Seq::empty(), open: Seq::empty() });
    let mut pages: Vec<Vec<String>> = Vec::new();
    let mut open: Vec<String> = Vec::new();
    let mut j: usize = from;
    proof {
        assert(page_views(pages@) =~= Seq::empty());
        assert(strings(open@) =~= Seq::empty());
    }
    while j < lines.len()
        invariant
            from <= j <= lines.len(),
            ls == texts(lines@),
            goal == collect(ls, from as int, Pages { done: Seq::empty(), open: Seq::empty() }),
            goal == collect(
                ls,
                j as int,
                Pages { done: page_views(pages@), open: strings(open@) },
            ),
        decreases lines.len() - j,
    {
        let line = lines[j];
        proof {
            assert(ls[j as int] == line@);
        }
        let (a, _b) = find_word(line);
        if a >= line.len() {
            return Err(Error::NoCommand(j));
        }
        let t = match read_quoted(line) {
            None => {
                return Err(Error::NoArguments(j));
            },
            Some(t) => t,
        };
        let ghost before = Pages { done: page_views(pages@), open: strings(open@) };
        if marked(t, "$") {
            let last = cleaned(t, "$");
            proof {
                assert(strings(open@.push(last)) =~= strings(open@).push(last@));
            }
            open.push(last);
            proof {
                assert(page_views(pages@.push(open)) =~= page_views(pages@).push(strings(open@)));
            }
            pages.push(open);
            return Ok((pages, j + 1));
        }
        if marked(t, "\\p") {
            let last = cleaned(t, "\\p");
            proof {
                assert(strings(open@.push(last)) =~= strings(open@).push(last@));
            }
            open.push(last);
            proof {
                assert(page_views(pages@.push(open)) =~= page_views(pages@).push(strings(open@)));
            }
            pages.push(open);
            open = Vec::new();
            proof {
                assert(strings(open@) =~= Seq::empty());
            }
        }
        if marked(t, "\\n") {
            let text = cleaned(t, "\\n");
            proof {
                assert(strings(open@.push(text)) =~= strings(open@).push(text@));
            }
            open.push(text);
        }
        if marked(t, "\\l") {
            let text = cleaned(t, "\\l");
            proof {
                assert(strings(open@.push(text)) =~= strings(open@).push(text@));
            }
            open.push(text);
        }
        proof {
            assert(Pages { done: page_views(pages@), open: strings(open@) } == extend(before, t@));
        }
        j += 1;
    }
    Err(Error::EndOfFile("message"))
}

/// Parses the lines of a message source.
pub fn parse_lines(lines: &Vec<&[char]>) -> (result: Result<Vec<Message>, Error>)
    ensures
        agrees(result, scan(texts(lines@), 0, Seq::empty())),
{
    let ghost ls = texts(lines@);
    let ghost goal = scan(ls, 0, Seq::empty());
    let mut messages: Vec<Message> = Vec::new();
    let mut i: usize = 0;
    proof {
        assert(message_views(messages@) =~= Seq::empty());
    }
    while i < lines.len()
        invariant
            i <= lines.len(),
            ls == texts(lines@),
            goal == scan(ls, 0, Seq::empty()),
            goal == scan(ls, i as int, message_views(messages@)),
        decreases lines.len() - i,
    {
        proof {
            assert(ls[i as int] == lines@[i as int]@);
        }
        let ws = split_words(lines[i], &Class::Space);
        proof {
            assert(texts(ws@) == words(ls[i as int], Class::Space));
        }
        if ws.len() == 0 {
            i += 1;
        } else {
            match read_label(&ws, i) {
                Err(e) => {
                    return Err(e);
                },
                Ok((name, location)) => {
                    proof {
                        lemma_collect(
                            ls,
                            i + 1,
                            Pages { done: Seq::empty(), open: Seq::empty() },
                        );
                    }
                    match read_pages(lines, i + 1) {
                        Err(e) => {
                            return Err(e);
                        },
                        Ok((pages, next)) => {
                            let message = Message { name, location, pages };
                            proof {
                                assert(message_views(messages@.push(message)) =~= message_views(
                                    messages@,
                                ).push(message@));
                            }
                            messages.push(message);
                            i = next;
                        },
                    }
                },
            }
        }
    }
    Ok(messages)
}

/// Parses a message source: the messages in the order of their labels, or
/// the first error.
pub fn parse_message_script(script: &str) -> (result: Result<Vec<Message>, Error>)
    ensures
        agrees(result, messages_of(script@)),
{
    let chars = to_chars(script);
    let lines = split_lines(chars.as_slice());
    parse_lines(&lines)
}

/// Whether a line inside a message is well formed and does not end it:
/// it has a first word and a quoted text without `$`.
pub open spec fn continues_message(line: Seq<char>) -> bool {
    word_start(line) < line.len() && (quoted(line) matches Some(t) && !ends_message(t))
}

/// Outside a message every line that is not blank must be a label, however
/// short its first word is: one of the wrong shape stops the parse with the
/// error that the label gives for the number of its line.
pub proof fn lemma_malformed_label(ls: Seq<Seq<char>>, at: int, read: Seq<MessageView>)
    requires
        0 <= at < ls.len(),
        words(ls[at], Class::Space).len() > 0,
        label(words(ls[at], Class::Space), at as usize) is Err,
    ensures
        scan(ls, at, read) == Err::<Seq<MessageView>, Error>(
            label(words(ls[at], Class::Space), at as usize)->Err_0,
        ),
{
}

/// A source whose first line that is not blank is a label of the wrong
/// shape is rejected with the error that the label gives for the number
/// of that line.
pub proof fn lemma_first_label_malformed(text: Seq<char>, at: int)
    requires
        0 <= at < lines(text).len(),
        forall|t: int| 0 <= t < at ==> words(#[trigger] lines(text)[t], Class::Space).len() == 0,
        words(lines(text)[at], Class::Space).len() > 0,
        label(words(lines(text)[at], Class::Space), at as usize) is Err,
    ensures
        messages_of(text) == Err::<Seq<MessageView>, Error>(
            label(words(lines(text)[at], Class::Space), at as usize)->Err_0,
        ),
{
    lemma_blank_lines(lines(text), 0, at, Seq::empty());
}

/// An error inside a message speaks of a line at or behind the one the
/// text continued on, within the lines, or of none.
pub proof fn lemma_text_errors(ls: Seq<Seq<char>>, at: int, p: Pages)
    requires
        0 <= at,
        ls.len() <= usize::MAX,
    ensures
        collect(ls, at, p) matches Err(e) ==> {
            &&& e.at_line() matches Some(line) ==> at <= line < ls.len()
            &&& e is EndOfFile ==> e == Error::EndOfFile("message")
        },
    decreases ls.len() - at,
{
    if at < ls.len() && word_start(ls[at]) < ls[at].len() {
        match quoted(ls[at]) {
            None => {},
            Some(t) => {
                if !ends_message(t) {
                    lemma_text_errors(ls, at + 1, extend(p, t));
                }
            },
        }
    }
}

/// An error of the message parser speaks of a line at or behind the one
/// the parse stood on, within the lines, or of none.
pub proof fn lemma_errors(ls: Seq<Seq<char>>, at: int, read: Seq<MessageView>)
    requires
        0 <= at,
        ls.len() <= usize::MAX,
    ensures
        scan(ls, at, read) matches Err(e) ==> {
            &&& e.at_line() matches Some(line) ==> at <= line < ls.len()
            &&& e is EndOfFile ==> e == Error::EndOfFile("message")
        },
    decreases ls.len() - at,
{
    if at < ls.len() {
        let ws = words(ls[at], Class::Space);
        if ws.len() == 0 {
            lemma_errors(ls, at + 1, read);
        } else {
            match label(ws, at as usize) {
                Err(e) => {},
                Ok((name, location)) => {
                    let start = Pages { done: Seq::empty(), open: Seq::empty() };
                    lemma_text_errors(ls, at + 1, start);
                    match collect(ls, at + 1, start) {
                        Err(e) => {},
                        Ok((pages, next)) => {
                            lemma_collect(ls, at + 1, start);
                            lemma_errors(ls, next, read.push(MessageView { name, location, pages }));
                        },
                    }
                },
            }
        }
    }
}

/// Blank lines between messages do not change the outcome.
pub proof fn lemma_blank_lines(ls: Seq<Seq<char>>, from: int, to: int, read: Seq<MessageView>)
    requires
        0 <= from <= to <= ls.len(),
        forall|t: int| from <= t < to ==> words(#[trigger] ls[t], Class::Space).len() == 0,
    ensures
        scan(ls, from, read) == scan(ls, to, read),
    decreases to - from,
{
    if from < to {
        assert(words(ls[from], Class::Space).len() == 0);
        lemma_blank_lines(ls, from + 1, to, read);
    }
}

/// A message text that no line ends is an error: never are pages given
/// for it. Where every line behind the label is well formed, the error is
/// `EndOfFile`.
pub proof fn lemma_unterminated_text(ls: Seq<Seq<char>>, at: int, p: Pages)
    requires
        0 <= at <= ls.len(),
        forall|t: int|
            at <= t < ls.len() ==> !(quoted(#[trigger] ls[t]) matches Some(x) && ends_message(x)),
    ensures
        collect(ls, at, p) is Err,
        (forall|t: int| at <= t < ls.len() ==> continues_message(#[trigger] ls[t])) ==> collect(
            ls,
            at,
            p,
        ) == Err::<(Seq<Seq<Seq<char>>>, int), Error>(Error::EndOfFile("message")),
    decreases ls.len() - at,
{
    if at < ls.len() {
        assert(!(quoted(ls[at]) matches Some(x) && ends_message(x)));
        if word_start(ls[at]) < ls[at].len() {
            match quoted(ls[at]) {
                None => {},
                Some(t) => {
                    lemma_unterminated_text(ls, at + 1, extend(p, t));
                    if forall|t: int| at <= t < ls.len() ==> continues_message(#[trigger] ls[t]) {
                        assert forall|t: int| at + 1 <= t < ls.len() implies continues_message(
                            #[trigger] ls[t],
                        ) by {}
                    }
                },
            }
        } else {
            if forall|t: int| at <= t < ls.len() ==> continues_message(#[trigger] ls[t]) {
                assert(continues_message(ls[at]));
            }
        }
    }
}

/// A message whose text no line ends stops the parse with an error, and
/// with `EndOfFile` where every line behind the label is well formed.
pub proof fn lemma_unterminated_message(ls: Seq<Seq<char>>, at: int, read: Seq<MessageView>)
    requires
        0 <= at < ls.len(),
        words(ls[at], Class::Space).len() > 0,
        label(words(ls[at], Class::Space), at as usize) is Ok,
        forall|t: int|
            at < t < ls.len() ==> !(quoted(#[trigger] ls[t]) matches Some(x) && ends_message(x)),
    ensures
        scan(ls, at, read) is Err,
        (forall|t: int| at < t < ls.len() ==> continues_message(#[trigger] ls[t])) ==> scan(
            ls,
            at,
            read,
        ) == Err::<Seq<MessageView>, Error>(Error::EndOfFile("message")),
{
    lemma_unterminated_text(ls, at + 1, Pages { done: Seq::empty(), open: Seq::empty() });
}

/// A text with `\p` in it, and no `$`, closes the page in progress with
/// the text as its last line, and the next page starts without lines of
/// the closed one.
pub proof fn lemma_page_break(p: Pages, t: Seq<char>)
    requires
        contains(t, "\\p"@),
    ensures
        extend(p, t).done == p.done.push(p.open.push(without(t, "\\p"@))),
        extend(p, t).open.len() <= 2,
        !contains(t, "\\n"@) && !contains(t, "\\l"@) ==> extend(p, t).open.len() == 0,
{
}

/// A text with `$` in it ends the message on its line: the text without
/// `$` is the last line of the last page, and no line behind it is read
/// for this message.
pub proof fn lemma_message_end(ls: Seq<Seq<char>>, at: int, p: Pages)
    requires
        0 <= at < ls.len(),
        word_start(ls[at]) < ls[at].len(),
        quoted(ls[at]) matches Some(t) && ends_message(t),
    ensures
        collect(ls, at, p) == Ok::<(Seq<Seq<Seq<char>>>, int), Error>(
            (p.done.push(p.open.push(without(quoted(ls[at])->0, "$"@))), at + 1),
        ),
{
}

/// Two parses of one text agree: in the messages they give, or in the
/// error.
pub proof fn lemma_reparse(
    text: Seq<char>,
    first: Result<Vec<Message>, Error>,
    second: Result<Vec<Message>, Error>,
)
    requires
        agrees(first, messages_of(text)),
        agrees(second, messages_of(text)),
    ensures
        match (first, second) {
            (Ok(a), Ok(b)) => message_views(a@) == message_views(b@),
            (Err(e), Err(f)) => e == f,
            _ => false,
        },
{
}

} // verus!
