//! RPSL objects as the store reads them, and the splitting of an RPSL
//! database dump into objects.
use vstd::prelude::*;
use crate::text::{chars_of, extend_strings, opt_view, push_char, push_str, views};

verus! {

// ---------------------------------------------------------------------------
// Parsed objects
// ---------------------------------------------------------------------------

/// One attribute of an RPSL object: its name and the lines of its value that
/// hold content.
pub struct RpslAttribute {
    pub name: String,
    pub values: Vec<String>,
}

impl View for RpslAttribute {
    type V = (Seq<char>, Seq<Seq<char>>);

    open spec fn view(&self) -> (Seq<char>, Seq<Seq<char>>) {
        (self.name@, views(self.values@))
    }
}

/// An RPSL object: its attributes in the order in which they were written.
pub struct RpslObject {
    pub attributes: Vec<RpslAttribute>,
}

impl View for RpslObject {
    type V = Seq<(Seq<char>, Seq<Seq<char>>)>;

    open spec fn view(&self) -> Seq<(Seq<char>, Seq<Seq<char>>)> {
        self.attributes@.map_values(|a: RpslAttribute| a@)
    }
}

/// What `rpsl::parse_object` makes of a text: on success the object's
/// attributes, each as its name and the content lines of its value
/// (`Value::with_content`); on failure the `Debug` rendering of its error.
pub uninterp spec fn rpsl_parse(text: Seq<char>) -> Result<Seq<(Seq<char>, Seq<Seq<char>>)>, Seq<char>>;

/// `rpsl::parse_object`, with the object it returns read out into an
/// `RpslObject` and its error rendered with `Debug`. The result is named by
/// `rpsl_parse`; the one fact stated besides is that a parsed object has at
/// least one attribute (its grammar repeats attributes `1..` times).
#[verifier::external_body]
pub(crate) fn parse_object(text: &str) -> (r: Result<RpslObject, String>)
    ensures
        match r {
            Ok(o) => rpsl_parse(text@) == Ok::<Seq<(Seq<char>, Seq<Seq<char>>)>, Seq<char>>(o@)
                && o@.len() >= 1,
            Err(e) => rpsl_parse(text@) == Err::<Seq<(Seq<char>, Seq<Seq<char>>)>, Seq<char>>(e@),
        },
{
    match rpsl::parse_object(text) {
        Ok(object) => Ok(RpslObject {
            attributes: object.iter().map(|a| RpslAttribute {
                name: a.name.to_string(),
                values: a.value.with_content().into_iter().map(String::from).collect(),
            }).collect(),
        }),
        Err(error) => Err(format!("{:?}", error)),
    }
}

/// The content lines of all attributes named `name`, in order, as
/// `Object::get` returns them.
pub open spec fn values_named(attrs: Seq<(Seq<char>, Seq<Seq<char>>)>, name: Seq<char>) -> Seq<
    Seq<char>,
>
    decreases attrs.len(),
{
    if attrs.len() == 0 {
        Seq::empty()
    } else {
        values_named(attrs.drop_last(), name) + if attrs.last().0 == name {
            attrs.last().1
        } else {
            Seq::empty()
        }
    }
}

impl RpslObject {
    /// The content lines of every attribute called `name`, in order.
    pub fn get(&self, name: &str) -> (r: Vec<String>)
        ensures
            views(r@) == values_named(self@, name@),
    {
        let wanted = name.to_owned();
        let mut r: Vec<String> = Vec::new();
        let mut i: usize = 0;
        while i < self.attributes.len()
            invariant
                i <= self@.len(),
                wanted@ == name@,
                views(r@) == values_named(self@.take(i as int), name@),
            decreases self@.len() - i,
        {
            let a = &self.attributes[i];
            assert(self@.take(i + 1).drop_last() =~= self@.take(i as int));
            if a.name == wanted {
                extend_strings(&mut r, &a.values);
            }
            i = i + 1;
            assert(views(r@) =~= values_named(self@.take(i as int), name@));
        }
        assert(self@.take(self@.len() as int) =~= self@);
        r
    }
}


// ---------------------------------------------------------------------------
// Splitting a dump into objects
// ---------------------------------------------------------------------------

/// A line that starts with `#` is a comment.
pub open spec fn is_comment(line: Seq<char>) -> bool {
    line.len() > 0 && line[0] == '#'
}

/// The buffer after `line` is read, and the object that the line completes,
/// if it completes one: a comment leaves all as it was; a line with content is
/// added to the buffer with its newline; an empty line ends the object in the
/// buffer, if there is one, which is handed out with one more newline.
pub open spec fn split_step(buffer: Seq<char>, line: Seq<char>) -> (Seq<char>, Option<Seq<char>>) {
    if is_comment(line) {
        (buffer, None)
    } else if line.len() > 0 {
        (buffer + line.push('\n'), None)
    } else if buffer.len() > 0 {
        (Seq::empty(), Some(buffer.push('\n')))
    } else {
        (buffer, None)
    }
}

/// The object left in the buffer at the end of the input, if any, as it
/// stands: its lines, without a blank line after them.
pub open spec fn split_finish(buffer: Seq<char>) -> Option<Seq<char>> {
    if buffer.len() > 0 {
        Some(buffer)
    } else {
        None
    }
}

/// The buffer after reading `lines` from an empty buffer.
pub open spec fn buffer_after(lines: Seq<Seq<char>>) -> Seq<char>
    decreases lines.len(),
{
    if lines.len() == 0 {
        Seq::empty()
    } else {
        split_step(buffer_after(lines.drop_last()), lines.last()).0
    }
}

/// The objects handed out while reading `lines`, in order, before the end of
/// the input.
pub open spec fn objects_before_end(lines: Seq<Seq<char>>) -> Seq<Seq<char>>
    decreases lines.len(),
{
    if lines.len() == 0 {
        Seq::empty()
    } else {
        let prior = objects_before_end(lines.drop_last());
        match split_step(buffer_after(lines.drop_last()), lines.last()).1 {
            Some(o) => prior.push(o),
            None => prior,
        }
    }
}

/// All objects of a dump made of `lines`.
pub open spec fn split_objects(lines: Seq<Seq<char>>) -> Seq<Seq<char>> {
    match split_finish(buffer_after(lines)) {
        Some(o) => objects_before_end(lines).push(o),
        None => objects_before_end(lines),
    }
}

/// The lines of `lines` that hold content (neither comments nor empty), each
/// with its newline, one after another.
pub open spec fn content_of(lines: Seq<Seq<char>>) -> Seq<char>
    decreases lines.len(),
{
    if lines.len() == 0 {
        Seq::empty()
    } else {
        content_of(lines.drop_last()) + if !is_comment(lines.last()) && lines.last().len() > 0 {
            lines.last().push('\n')
        } else {
            Seq::empty()
        }
    }
}

/// `objects` one after another, each without its last character (the blank
/// line that ends it).
pub open spec fn joined_bodies(objects: Seq<Seq<char>>) -> Seq<char>
    decreases objects.len(),
{
    if objects.len() == 0 {
        Seq::empty()
    } else {
        joined_bodies(objects.drop_last()) + objects.last().drop_last()
    }
}

proof fn lemma_split_progress(lines: Seq<Seq<char>>)
    ensures
        joined_bodies(objects_before_end(lines)) + buffer_after(lines) == content_of(lines),
        buffer_after(lines).len() == 0 || buffer_after(lines).last() == '\n',
        forall|k: int| 0 <= k < objects_before_end(lines).len() ==> {
            let o = #[trigger] objects_before_end(lines)[k];
            o.len() >= 2 && o[o.len() - 1] == '\n' && o[o.len() - 2] == '\n'
        },
    decreases lines.len(),
{
    if lines.len() > 0 {
        let prior = lines.drop_last();
        lemma_split_progress(prior);
        let buf = buffer_after(prior);
        let line = lines.last();
        let objs = objects_before_end(prior);
        if is_comment(line) {
            assert(content_of(lines) =~= content_of(prior));
        } else if line.len() > 0 {
            assert(content_of(lines) =~= content_of(prior) + line.push('\n'));
            assert(joined_bodies(objs) + (buf + line.push('\n')) =~= (joined_bodies(objs) + buf) + line.push('\n'));
        } else if buf.len() > 0 {
            let o = buf.push('\n');
            assert(objects_before_end(lines) == objs.push(o));
            assert(objs.push(o).drop_last() =~= objs);
            assert(o.drop_last() =~= buf);
            assert(content_of(lines) =~= content_of(prior));
            assert(joined_bodies(objs.push(o)) + Seq::<char>::empty() =~= joined_bodies(objs) + buf);
            assert forall|k: int| 0 <= k < objects_before_end(lines).len() implies {
                let p = #[trigger] objects_before_end(lines)[k];
                p.len() >= 2 && p[p.len() - 1] == '\n' && p[p.len() - 2] == '\n'
            } by {
                if k < objs.len() {
                    assert(objects_before_end(lines)[k] == objs[k]);
                }
            }
        } else {
            assert(content_of(lines) =~= content_of(prior));
        }
    }
}

/// Splitting loses nothing and adds nothing: the objects that a blank line
/// ends, each without that blank line, and then the object left at the end of
/// the input, are the dump's content lines in order. Every object ended by a
/// blank line ends with its last line's newline and the blank line; the
/// object left at the end ends with its last line's newline alone.
pub proof fn law_split_keeps_content(lines: Seq<Seq<char>>)
    ensures
        joined_bodies(objects_before_end(lines)) + buffer_after(lines) == content_of(lines),
        split_objects(lines) == if buffer_after(lines).len() > 0 {
            objects_before_end(lines).push(buffer_after(lines))
        } else {
            objects_before_end(lines)
        },
        forall|k: int| 0 <= k < objects_before_end(lines).len() ==> {
            let o = #[trigger] objects_before_end(lines)[k];
            o.len() >= 2 && o[o.len() - 1] == '\n' && o[o.len() - 2] == '\n'
        },
        buffer_after(lines).len() == 0 || buffer_after(lines).last() == '\n',
{
    lemma_split_progress(lines);
}

/// Splits an RPSL dump, read line by line, into objects. Comment lines are
/// dropped; an object is handed out at the blank line that ends it, with its
/// lines and that blank line, or at the end of the input, with its lines.
pub struct RpslSplitter {
    buffer: String,
}

impl View for RpslSplitter {
    type V = Seq<char>;

    closed spec fn view(&self) -> Seq<char> {
        self.buffer@
    }
}

impl RpslSplitter {
    /// A splitter that has read nothing.
    pub fn new() -> (r: Self)
        ensures
            r@ == Seq::<char>::empty(),
    {
        RpslSplitter { buffer: String::new() }
    }

    /// Reads one line, without its line terminator; returns the object that
    /// the line ends, if it ends one.
    pub fn feed_line(&mut self, line: &str) -> (r: Option<String>)
        ensures
            (final(self)@, opt_view(r)) == split_step(old(self)@, line@),
    {
        let chars = chars_of(line);
        if chars.len() > 0 && chars[0] == '#' {
            return None;
        }
        if chars.len() > 0 {
            push_str(&mut self.buffer, line);
            push_char(&mut self.buffer, '\n');
            return None;
        }
        if self.buffer.as_str().is_empty() {
            return None;
        }
        let mut done = String::new();
        std::mem::swap(&mut done, &mut self.buffer);
        push_char(&mut done, '\n');
        Some(done)
    }

    /// Ends the input; returns the object left, if there is one.
    pub fn finish(&mut self) -> (r: Option<String>)
        ensures
            opt_view(r) == split_finish(old(self)@),
            final(self)@ == Seq::<char>::empty(),
    {
        let mut done = String::new();
        std::mem::swap(&mut done, &mut self.buffer);
        if done.as_str().is_empty() {
            return None;
        }
        Some(done)
    }
}

} // verus!
