//! Lists: bullets for unordered items, running numbers for ordered ones.

use crate::context::RenderContext;
use crate::element_renderer::ElementRenderer;
use crate::text::{decimal, push_decimal, push_repeated, repeated};
use vstd::prelude::*;
use vstd::string::*;

verus! {

/// What a [`ListRenderer`] holds.
pub struct ListView {
    /// Nesting level that the renderer was made for.
    pub depth: nat,
    /// Whether the items are numbered.
    pub ordered: bool,
    /// Number of the last item begun; 0 before the first. An unordered list
    /// does not count.
    pub ordinal: nat,
    /// Whether an item was begun and not ended.
    pub in_item: bool,
    /// Text handed to the renderer itself.
    pub buffer: Seq<char>,
}

impl ListView {
    /// The renderer of a list in which no item was begun.
    pub open spec fn new(ordered: bool, depth: nat) -> ListView {
        ListView { depth, ordered, ordinal: 0, in_item: false, buffer: Seq::empty() }
    }

    /// The renderer after the next item was begun.
    pub open spec fn next_item(self) -> ListView {
        ListView {
            ordinal: if self.ordered {
                self.ordinal + 1
            } else {
                self.ordinal
            },
            in_item: true,
            ..self
        }
    }

    /// The renderer after `count` more items were begun.
    pub open spec fn after_items(self, count: nat) -> ListView
        decreases count,
    {
        if count == 0 {
            self
        } else {
            self.after_items((count - 1) as nat).next_item()
        }
    }

    /// What is written where the next item begins at nesting level `depth`:
    /// two spaces for each level above the first, then the item's number, a
    /// full stop and a space, or a bullet and a space.
    pub open spec fn next_marker(self, depth: nat) -> Seq<char> {
        repeated(' ', (2 * (depth - 1)) as nat) + if self.ordered {
            decimal(self.ordinal + 1) + seq!['.', ' ']
        } else {
            seq!['•', ' ']
        }
    }
}

/// Beginning items changes nothing of a list but the count of an ordered
/// one, which goes up by one for each.
pub proof fn lemma_after_items(list: ListView, count: nat)
    ensures
        list.after_items(count).ordered == list.ordered,
        list.after_items(count).depth == list.depth,
        list.ordered ==> list.after_items(count).ordinal == list.ordinal + count,
        !list.ordered ==> list.after_items(count).ordinal == list.ordinal,
    decreases count,
{
    if count > 0 {
        lemma_after_items(list, (count - 1) as nat);
    }
}

/// The items of an ordered list are numbered 1, 2, 3 and so on, in the
/// order in which they begin: after `count` items of a new list the next
/// one is written with the number `count + 1`. The items of an unordered
/// list all have the bullet.
pub proof fn lemma_items_are_numbered(ordered: bool, made_for: nat, count: nat, depth: nat)
    ensures
        ordered ==> ListView::new(ordered, made_for).after_items(count).next_marker(depth)
            == repeated(' ', (2 * (depth - 1)) as nat) + (decimal(count + 1) + seq!['.', ' ']),
        !ordered ==> ListView::new(ordered, made_for).after_items(count).next_marker(depth)
            == repeated(' ', (2 * (depth - 1)) as nat) + seq!['•', ' '],
{
    lemma_after_items(ListView::new(ordered, made_for), count);
}

/// Renders lists with bullets or numbers.
#[allow(dead_code)]
pub struct ListRenderer {
    depth: usize,
    is_ordered: bool,
    ordinal: usize,
    in_item: bool,
    buffer: String,
}

impl View for ListRenderer {
    type V = ListView;

    closed spec fn view(&self) -> ListView {
        ListView {
            depth: self.depth as nat,
            ordered: self.is_ordered,
            ordinal: self.ordinal as nat,
            in_item: self.in_item,
            buffer: self.buffer@,
        }
    }
}

impl ListRenderer {
    /// The renderer of a list at nesting level `depth`, numbered if
    /// `ordered`.
    pub fn new(ordered: bool, depth: usize) -> (renderer: Self)
        ensures
            renderer@ == ListView::new(ordered, depth as nat),
    {
        Self { depth, is_ordered: ordered, ordinal: 0, in_item: false, buffer: String::new() }
    }

    /// Begins the next item: writes its indentation and its marker to
    /// `output`. Items of an ordered list are numbered from 1 in the order
    /// in which they begin.
    pub fn start_item(&mut self, output: &mut String, depth: usize)
        requires
            depth >= 1,
            old(self)@.ordinal < usize::MAX,
        ensures
            final(self)@ == old(self)@.next_item(),
            final(output)@ == old(output)@ + old(self)@.next_marker(depth as nat),
    {
        self.in_item = true;
        let ghost written = old(output)@;
        let mut level: usize = 1;
        while level < depth
            invariant
                1 <= level <= depth,
                output@ == written + repeated(' ', (2 * (level - 1)) as nat),
            decreases depth - level,
        {
            push_repeated(output, ' ', 2);
            assert(repeated(' ', (2 * (level - 1)) as nat) + repeated(' ', 2) =~= repeated(
                ' ',
                (2 * level) as nat,
            ));
            level += 1;
        }
        let ghost indent = repeated(' ', (2 * (depth - 1)) as nat);
        if self.is_ordered {
            self.ordinal += 1;
            push_decimal(output, self.ordinal);
            proof {
                reveal_strlit(". ");
            }
            output.append(". ");
            assert(output@ =~= written + (indent + (decimal(self.ordinal as nat) + seq!['.', ' '])));
        } else {
            proof {
                reveal_strlit("• ");
            }
            output.append("• ");
            assert(output@ =~= written + (indent + seq!['•', ' ']));
        }
    }

    /// Ends the item that was begun.
    pub fn end_item(&mut self)
        ensures
            final(self)@ == (ListView { in_item: false, ..old(self)@ }),
    {
        self.in_item = false;
    }
}

impl ElementRenderer for ListRenderer {
    /// Forgets the text handed to the renderer.
    fn start(&mut self, context: &mut RenderContext)
        ensures
            final(self)@ == (ListView { buffer: Seq::empty(), ..old(self)@ }),
            *final(context) == *old(context),
    {
        self.buffer = String::new();
    }

    /// Keeps `text`.
    fn handle_text(&mut self, text: &str, context: &mut RenderContext)
        ensures
            final(self)@ == (ListView { buffer: old(self)@.buffer + text@, ..old(self)@ }),
            *final(context) == *old(context),
    {
        self.buffer.append(text);
    }

    /// A soft break is kept as a space.
    fn handle_soft_break(&mut self, context: &mut RenderContext)
        ensures
            final(self)@ == (ListView { buffer: old(self)@.buffer.push(' '), ..old(self)@ }),
            *final(context) == *old(context),
    {
        self.buffer.push(' ');
    }

    /// A hard break is kept as a newline.
    fn handle_hard_break(&mut self, context: &mut RenderContext)
        ensures
            final(self)@ == (ListView { buffer: old(self)@.buffer.push('\n'), ..old(self)@ }),
            *final(context) == *old(context),
    {
        self.buffer.push('\n');
    }

    /// A list has nothing to hand out at its end: its items are written as
    /// they begin.
    fn end(&mut self, context: &mut RenderContext) -> (out: Option<String>)
        ensures
            out is None,
            final(self)@ == old(self)@,
            *final(context) == *old(context),
    {
        None
    }
}

} // verus!
