//! What the nesting of events guarantees: a style ends with its span, and
//! a list counts its own items.
//!
//! The open styles and the open lists depend on the events alone, not on
//! what else the state holds. So both are followed here as functions of
//! the events, and what is shown of them holds from every state.

use crate::context::FormattingState;
use crate::events::{BlockKind, EventView};
use crate::renderer::StateView;
use crate::formatters::{fully_styled, lemma_styles_nest, painted, style_params};
use crate::renderers::list::{lemma_after_items, ListView};
use crate::text::{decimal, repeated};
use vstd::prelude::*;

verus! {

/// The inline style that a region opens, if it is a span.
pub open spec fn span_style(kind: BlockKind) -> Option<FormattingState> {
    match kind {
        BlockKind::Emphasis => Some(FormattingState::Italic),
        BlockKind::Strong => Some(FormattingState::Bold),
        BlockKind::Link => Some(FormattingState::Link),
        _ => None,
    }
}

/// The open styles after `event`.
pub open spec fn styles_step(
    stack: Seq<FormattingState>,
    event: EventView,
) -> Seq<FormattingState> {
    match event {
        EventView::Enter(kind) => match span_style(kind) {
            Some(style) => stack.push(style),
            None => stack,
        },
        EventView::Exit(kind) => if span_style(kind) is Some && stack.len() > 0 {
            stack.drop_last()
        } else {
            stack
        },
        _ => stack,
    }
}

/// The open styles after `events`.
pub open spec fn styles_after(
    stack: Seq<FormattingState>,
    events: Seq<EventView>,
) -> Seq<FormattingState>
    decreases events.len(),
{
    if events.len() == 0 {
        stack
    } else {
        styles_step(styles_after(stack, events.drop_last()), events.last())
    }
}

/// By how much `event` changes the number of open spans.
pub open spec fn span_change(event: EventView) -> int {
    match event {
        EventView::Enter(kind) => if span_style(kind) is Some {
            1
        } else {
            0
        },
        EventView::Exit(kind) => if span_style(kind) is Some {
            -1
        } else {
            0
        },
        _ => 0,
    }
}

/// The spans that begin in `events`, less those that end in them.
pub open spec fn open_spans(events: Seq<EventView>) -> int
    decreases events.len(),
{
    if events.len() == 0 {
        0
    } else {
        open_spans(events.drop_last()) + span_change(events.last())
    }
}

/// Whether every span that ends in `events` began in them.
pub open spec fn spans_nested(events: Seq<EventView>) -> bool {
    forall|k: int| 0 <= k <= events.len() ==> open_spans(#[trigger] events.take(k)) >= 0
}

/// An event changes the open styles as [`styles_step`] says.
pub proof fn lemma_step_styles(state: StateView, event: EventView)
    ensures
        state.step(event).context.stack == styles_step(state.context.stack, event),
{
}

/// A run of `events` ends with the open styles that the events give.
pub proof fn lemma_run_styles(start: StateView, events: Seq<EventView>)
    ensures
        start.run(events).context.stack == styles_after(start.context.stack, events),
    decreases events.len(),
{
    if events.len() > 0 {
        lemma_run_styles(start, events.drop_last());
        lemma_step_styles(start.run(events.drop_last()), events.last());
    }
}

/// Spans that are nested leave the styles below them alone: the styles open
/// after the events are those of before and, on top of them, one for each
/// span that is still open.
pub proof fn lemma_styles_after_nested(stack: Seq<FormattingState>, events: Seq<EventView>)
    requires
        spans_nested(events),
    ensures
        styles_after(stack, events) == stack + styles_after(Seq::empty(), events),
        styles_after(Seq::empty(), events).len() == open_spans(events),
    decreases events.len(),
{
    let none = Seq::<FormattingState>::empty();
    if events.len() == 0 {
        assert(stack + none =~= stack);
    } else {
        let front = events.drop_last();
        assert forall|k: int| 0 <= k <= front.len() implies open_spans(#[trigger] front.take(k))
            >= 0 by {
            assert(front.take(k) =~= events.take(k));
        }
        lemma_styles_after_nested(stack, front);
        assert(events.take(events.len() as int) =~= events);
        assert(open_spans(events) >= 0);
        let above = styles_after(none, front);
        match events.last() {
            EventView::Enter(kind) => {
                if let Some(style) = span_style(kind) {
                    assert((stack + above).push(style) =~= stack + above.push(style));
                }
            },
            EventView::Exit(kind) => {
                if span_style(kind) is Some {
                    assert(above.len() > 0);
                    assert((stack + above).drop_last() =~= stack + above.drop_last());
                }
            },
            _ => {},
        }
    }
}

/// Styling never outlives its span. Over events in which every span that
/// begins also ends, and none ends that did not begin in them, a run ends
/// with the styles open that were open at its start: text after the events
/// is styled as text before them.
pub proof fn lemma_styles_end_with_their_spans(start: StateView, events: Seq<EventView>)
    requires
        spans_nested(events),
        open_spans(events) == 0,
    ensures
        start.run(events).context.stack == start.context.stack,
{
    lemma_run_styles(start, events);
    lemma_styles_after_nested(start.context.stack, events);
    assert(start.context.stack + styles_after(Seq::empty(), events) =~= start.context.stack);
}

/// An inline style covers what stands between its beginning and its end,
/// and nothing after. Three styles begun one inside the other are all
/// applied to the text inside them: with colours, text that goes straight
/// to the output is written in the innermost style, that in the middle
/// one, that in the outer one, and that in the styles that were open
/// before. Once the three have ended, the state is what it was.
pub proof fn lemma_nested_styles(
    state: StateView,
    outer: FormattingState,
    middle: FormattingState,
    inner: FormattingState,
    text: Seq<char>,
)
    ensures
        ({
            let inside = state.open_style(outer).open_style(middle).open_style(inner);
            let styled = painted(
                style_params(outer),
                painted(style_params(middle), painted(style_params(inner), text)),
            );
            &&& inside.context.stack == state.context.stack + seq![outer, middle, inner]
            &&& inside.direct() == state.direct()
            &&& inside.direct() && inside.context.colors ==> inside.step(
                EventView::Text(text),
            ).context.output == state.context.output + fully_styled(state.context.stack, styled)
            &&& inside.direct() && !inside.context.colors ==> inside.step(
                EventView::Text(text),
            ).context.output == state.context.output + text
            &&& inside.close_style().close_style().close_style() == state
        }),
{
    let inside = state.open_style(outer).open_style(middle).open_style(inner);
    let three = seq![outer, middle, inner];
    assert(inside.context.stack =~= state.context.stack + three);
    let closed = inside.close_style().close_style().close_style();
    assert(closed.context.stack =~= state.context.stack);
    lemma_styles_nest(state.context.stack, three, text);
    assert(three.drop_first() =~= seq![middle, inner]);
    assert(seq![middle, inner].drop_first() =~= seq![inner]);
    assert(seq![inner].drop_first() =~= Seq::<FormattingState>::empty());
    assert(fully_styled(Seq::<FormattingState>::empty(), text) == text);
    assert(fully_styled(seq![inner], text) == painted(style_params(inner), text));
    assert(fully_styled(seq![middle, inner], text) == painted(
        style_params(middle),
        fully_styled(seq![inner], text),
    ));
    assert(fully_styled(three, text) == painted(
        style_params(outer),
        fully_styled(seq![middle, inner], text),
    ));
}

/// The open lists after `event`.
pub open spec fn lists_step(lists: Seq<ListView>, event: EventView) -> Seq<ListView> {
    match event {
        EventView::Enter(BlockKind::List(first)) => lists.push(
            ListView::new(first is Some, lists.len() + 1),
        ),
        EventView::Enter(BlockKind::ListItem) => if lists.len() > 0 {
            lists.drop_last().push(lists.last().next_item())
        } else {
            lists
        },
        EventView::Exit(BlockKind::List(_)) => if lists.len() > 0 {
            lists.drop_last()
        } else {
            lists
        },
        _ => lists,
    }
}

/// The open lists after `events`.
pub open spec fn lists_after(lists: Seq<ListView>, events: Seq<EventView>) -> Seq<ListView>
    decreases events.len(),
{
    if events.len() == 0 {
        lists
    } else {
        lists_step(lists_after(lists, events.drop_last()), events.last())
    }
}

/// By how much `event` changes the number of open lists.
pub open spec fn list_change(event: EventView) -> int {
    match event {
        EventView::Enter(BlockKind::List(_)) => 1,
        EventView::Exit(BlockKind::List(_)) => -1,
        _ => 0,
    }
}

/// The lists that begin in `events`, less those that end in them.
pub open spec fn open_lists(events: Seq<EventView>) -> int
    decreases events.len(),
{
    if events.len() == 0 {
        0
    } else {
        open_lists(events.drop_last()) + list_change(events.last())
    }
}

/// Whether `events` leave the lists around them alone: every list that
/// ends in them began in them, and every item that begins in them belongs
/// to a list that began in them.
pub open spec fn lists_nested(events: Seq<EventView>) -> bool {
    &&& forall|k: int| 0 <= k <= events.len() ==> open_lists(#[trigger] events.take(k)) >= 0
    &&& forall|k: int|
        0 <= k < events.len() && events[k] == EventView::Enter(BlockKind::ListItem)
            ==> open_lists(#[trigger] events.take(k)) > 0
}

/// Whether `events` can stand inside a list item: they leave the lists
/// around them alone and end every list that they begin.
pub open spec fn is_item_content(events: Seq<EventView>) -> bool {
    lists_nested(events) && open_lists(events) == 0
}

/// An event changes the open lists as [`lists_step`] says.
pub proof fn lemma_step_lists(state: StateView, event: EventView)
    ensures
        state.step(event).lists == lists_step(state.lists, event),
{
}

/// A run of `events` ends with the open lists that the events give.
pub proof fn lemma_run_lists(start: StateView, events: Seq<EventView>)
    ensures
        start.run(events).lists == lists_after(start.lists, events),
    decreases events.len(),
{
    if events.len() > 0 {
        lemma_run_lists(start, events.drop_last());
        lemma_step_lists(start.run(events.drop_last()), events.last());
    }
}

/// The open lists after two runs of events are those after the second, from
/// those after the first.
proof fn lemma_lists_after_both(
    lists: Seq<ListView>,
    first: Seq<EventView>,
    second: Seq<EventView>,
)
    ensures
        lists_after(lists, first + second) == lists_after(lists_after(lists, first), second),
    decreases second.len(),
{
    if second.len() == 0 {
        assert(first + second =~= first);
    } else {
        assert((first + second).drop_last() =~= first + second.drop_last());
        assert((first + second).last() == second.last());
        lemma_lists_after_both(lists, first, second.drop_last());
    }
}

/// Events that leave the lists around them alone do so: after them the
/// lists that were open are open as they were, below the lists that the
/// events began and did not end.
pub proof fn lemma_lists_after_nested(lists: Seq<ListView>, events: Seq<EventView>)
    requires
        lists_nested(events),
    ensures
        lists_after(lists, events).len() == lists.len() + open_lists(events),
        lists_after(lists, events).take(lists.len() as int) == lists,
    decreases events.len(),
{
    if events.len() == 0 {
        assert(lists.take(lists.len() as int) =~= lists);
    } else {
        let front = events.drop_last();
        let last = events.len() - 1;
        assert forall|k: int| 0 <= k <= front.len() implies open_lists(#[trigger] front.take(k))
            >= 0 by {
            assert(front.take(k) =~= events.take(k));
        }
        assert forall|k: int|
            0 <= k < front.len() && front[k] == EventView::Enter(
                BlockKind::ListItem,
            ) implies open_lists(#[trigger] front.take(k)) > 0 by {
            assert(front.take(k) =~= events.take(k));
            assert(events[k] == front[k]);
        }
        lemma_lists_after_nested(lists, front);
        assert(events.take(events.len() as int) =~= events);
        assert(events.take(last) =~= front);
        assert(open_lists(events) >= 0);
        let before = lists_after(lists, front);
        let after = lists_after(lists, events);
        assert(after.take(lists.len() as int) =~= before.take(lists.len() as int));
    }
}

/// The events of one item: its beginning, its content, its end.
pub open spec fn item_events(content: Seq<EventView>) -> Seq<EventView> {
    seq![EventView::Enter(BlockKind::ListItem)] + content + seq![
        EventView::Exit(BlockKind::ListItem),
    ]
}

/// The events of the first `count` items with the given contents.
pub open spec fn items_events(contents: Seq<Seq<EventView>>, count: nat) -> Seq<EventView>
    decreases count,
{
    if count == 0 {
        Seq::empty()
    } else {
        items_events(contents, (count - 1) as nat) + item_events(contents[count - 1])
    }
}

/// The events of a list up to the end of its item number `count`: the
/// beginning of the list and `count` items.
pub open spec fn list_events(
    first: Option<u64>,
    contents: Seq<Seq<EventView>>,
    count: nat,
) -> Seq<EventView> {
    seq![EventView::Enter(BlockKind::List(first))] + items_events(contents, count)
}

/// A list counts its own items and no others: after the beginning of a
/// list and `count` of its items, whatever they hold, the list is the
/// innermost open list and has begun `count` items; the lists around it
/// are as they were.
pub proof fn lemma_list_counts_its_items(
    lists: Seq<ListView>,
    first: Option<u64>,
    contents: Seq<Seq<EventView>>,
    count: nat,
)
    requires
        count <= contents.len(),
        forall|i: int| 0 <= i < count ==> is_item_content(#[trigger] contents[i]),
    ensures
        lists_after(lists, list_events(first, contents, count)) == lists.push(
            ListView::new(first is Some, lists.len() + 1).after_items(count),
        ),
    decreases count,
{
    let begin = seq![EventView::Enter(BlockKind::List(first))];
    let fresh = ListView::new(first is Some, lists.len() + 1);
    if count == 0 {
        assert(list_events(first, contents, 0) =~= begin);
        assert(begin.drop_last() =~= Seq::<EventView>::empty());
        assert(lists_after(lists, begin.drop_last()) == lists);
    } else {
        let fewer = (count - 1) as nat;
        lemma_list_counts_its_items(lists, first, contents, fewer);
        let content = contents[count - 1];
        let enter = seq![EventView::Enter(BlockKind::ListItem)];
        let exit = seq![EventView::Exit(BlockKind::ListItem)];
        let so_far = list_events(first, contents, fewer);
        assert(list_events(first, contents, count) =~= so_far + (enter + content + exit));
        let counted = lists.push(fresh.after_items(fewer));
        let begun = lists.push(fresh.after_items(count));
        lemma_lists_after_both(lists, so_far, enter + content + exit);
        lemma_lists_after_both(counted, enter + content, exit);
        lemma_lists_after_both(counted, enter, content);
        assert(enter.drop_last() =~= Seq::<EventView>::empty());
        assert(lists_after(counted, enter.drop_last()) == counted);
        assert(lists_after(counted, enter) =~= begun);
        assert(is_item_content(content));
        lemma_lists_after_nested(begun, content);
        assert(lists_after(begun, content) =~= begun);
        assert(exit.drop_last() =~= Seq::<EventView>::empty());
        assert(lists_after(begun, exit.drop_last()) == begun);
        assert(lists_after(begun, exit) == begun);
    }
}

/// The items of an ordered list are numbered from 1 in the order of the
/// document, whatever they hold. After the beginning of an ordered list
/// and `count` of its items, the next item begins with its indentation, two
/// spaces for each list around this one, and the number `count + 1`, a full
/// stop and a space.
pub proof fn lemma_ordered_items_are_numbered(
    start: StateView,
    first: u64,
    contents: Seq<Seq<EventView>>,
    count: nat,
)
    requires
        count <= contents.len(),
        forall|i: int| 0 <= i < count ==> is_item_content(#[trigger] contents[i]),
    ensures
        ({
            let reached = start.run(list_events(Some(first), contents, count));
            reached.step(EventView::Enter(BlockKind::ListItem)).context.output
                == reached.context.output + (repeated(' ', 2 * start.lists.len()) + (decimal(
                count + 1,
            ) + seq!['.', ' ']))
        }),
{
    let events = list_events(Some(first), contents, count);
    let reached = start.run(events);
    lemma_run_lists(start, events);
    lemma_list_counts_its_items(start.lists, Some(first), contents, count);
    let list = ListView::new(true, start.lists.len() + 1);
    lemma_after_items(list, count);
    assert(reached.lists.last() == list.after_items(count));
    assert(reached.lists.len() == start.lists.len() + 1);
    assert((2 * ((start.lists.len() + 1) - 1)) as nat == 2 * start.lists.len());
}

} // verus!
