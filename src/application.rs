//! The stack of top-level widgets and what one key does to it.
use vstd::prelude::*;

use crate::event::{Key, UIResult, UIResultView};
use crate::graphics::{DrawOp, Graphics, Surface};
use crate::widget::{
    all_drawable, all_wf, drawn_all, lemma_all_drawable, lemma_all_wf, listens, models, render_children,
    subscribed, Widget, WidgetModel,
};

verus! {

/// What one key does to a stack of widgets, top last: the key goes to the
/// top widget. If it asks to close, the top is popped and, unless the stack
/// is then empty, every widget is redrawn bottom to top, the new top
/// focused. Otherwise the top takes its new state. Gives the new stack,
/// whether the application is still running, the top's result, and what is
/// drawn.
pub open spec fn stack_step(stack: Seq<WidgetModel>, k: Key, g: Surface) -> (
    Seq<WidgetModel>,
    bool,
    UIResultView,
    Seq<DrawOp>,
) {
    let last = stack.len() - 1;
    let (top, r, ops) = stack[last].key_step(k, g);
    if r is CLOSE {
        let rest = stack.drop_last();
        if rest.len() == 0 {
            (rest, false, r, ops)
        } else {
            (drawn_all(rest, g), true, r, ops + render_children(rest, rest.len() - 1, g, true))
        }
    } else {
        (stack.update(last, top), true, r, ops)
    }
}

/// The positions in `stack` of the widgets that listen to `topic`, bottom
/// first.
pub open spec fn listeners(stack: Seq<WidgetModel>, topic: Seq<char>) -> Seq<usize> {
    Seq::new(stack.len(), |i: int| i as usize).filter(|i: usize| listens(stack[i as int].subscriptions(), topic))
}

/// Closing the top of a stack of one widget ends the application; closing
/// the top of a taller stack pops exactly that widget and redraws the rest,
/// the new top last and focused.
pub proof fn lemma_close_pops(stack: Seq<WidgetModel>, k: Key, g: Surface)
    requires
        stack.len() >= 1,
        stack.last().key_step(k, g).1 is CLOSE,
    ensures
        stack.len() == 1 ==> !stack_step(stack, k, g).1 && stack_step(stack, k, g).0.len() == 0,
        stack.len() > 1 ==> {
            let (next, running, _r, ops) = stack_step(stack, k, g);
            &&& running
            &&& next == drawn_all(stack.drop_last(), g)
            &&& next.len() == stack.len() - 1
            &&& ops == stack.last().key_step(k, g).2 + render_children(
                stack.drop_last(),
                stack.len() - 2,
                g,
                true,
            )
        },
{
}

/// The top-level component: a stack of widgets, the topmost focused, and
/// the graphics they draw on.
pub struct Application {
    graphics: Graphics,
    ui_stack: Vec<Widget>,
}

impl Application {
    /// The widgets, bottom first.
    pub closed spec fn stack(&self) -> Seq<WidgetModel> {
        models(self.ui_stack@)
    }

    /// What the widgets draw with.
    pub closed spec fn surface(&self) -> Surface {
        self.graphics.surface()
    }

    /// The drawing commands recorded and not yet taken.
    pub closed spec fn pending(&self) -> Seq<DrawOp> {
        self.graphics.ops@
    }

    /// Every widget on the stack is well formed and can be drawn.
    pub open spec fn wf(&self) -> bool {
        &&& all_wf(self.stack())
        &&& all_drawable(self.stack(), self.surface())
    }

    /// Whether widgets are left on the stack.
    pub open spec fn running(&self) -> bool {
        self.stack().len() > 0
    }

    /// An application showing `initial_ui`.
    pub fn new(graphics: Graphics, initial_ui: Widget) -> (r: Application)
        ensures
            r.stack() == seq![initial_ui.model()],
            r.surface() == graphics.surface(),
            r.pending() == graphics.ops@,
    {
        let mut ui_stack: Vec<Widget> = Vec::new();
        ui_stack.push(initial_ui);
        let r = Application { graphics, ui_stack };
        assert(r.stack() =~= seq![initial_ui.model()]);
        r
    }

    /// Put `w` on top of the stack.
    pub fn push(&mut self, w: Widget)
        ensures
            final(self).stack() == old(self).stack().push(w.model()),
            final(self).surface() == old(self).surface(),
            final(self).pending() == old(self).pending(),
    {
        self.ui_stack.push(w);
        proof {
            assert(self.stack() =~= old(self).stack().push(w.model()));
        }
    }

    /// How many widgets are on the stack.
    pub fn depth(&self) -> (r: usize)
        ensures
            r == self.stack().len(),
    {
        self.ui_stack.len()
    }

    /// Whether widgets are left on the stack.
    pub fn is_running(&self) -> (r: bool)
        ensures
            r == self.running(),
    {
        self.ui_stack.len() > 0
    }

    /// Hand out the recorded drawing commands.
    pub fn take_ops(&mut self) -> (r: Vec<DrawOp>)
        ensures
            r@ == old(self).pending(),
            final(self).pending() == Seq::<DrawOp>::empty(),
            final(self).stack() == old(self).stack(),
            final(self).surface() == old(self).surface(),
    {
        self.graphics.take_ops()
    }

    /// The value of the widget at `index`.
    pub fn value_at(&self, index: usize) -> (r: String)
        requires
            index < self.stack().len(),
            self.wf(),
        ensures
            r@ == self.stack()[index as int].value(),
    {
        proof {
            lemma_all_wf(self.stack());
            assert(self.stack()[index as int] == self.ui_stack@[index as int].model());
        }
        self.ui_stack[index].get_value()
    }

    /// The positions of the widgets that listen to `topic`, bottom first.
    pub fn subscribers(&self, topic: &String) -> (r: Vec<usize>)
        ensures
            r@ == listeners(self.stack(), topic@),
    {
        let ghost st = self.stack();
        let n = self.ui_stack.len();
        let mut out: Vec<usize> = Vec::new();
        let mut i: usize = 0;
        while i < n
            invariant
                n == self.ui_stack@.len(),
                st == self.stack(),
                st == models(self.ui_stack@),
                i <= n,
                out@ == Seq::new(i as nat, |j: int| j as usize).filter(|j: usize| listens(st[j as int].subscriptions(), topic@)),
            decreases n - i,
        {
            let yes = subscribed(self.ui_stack[i].get_subscriptions(), topic);
            proof {
                let idx = Seq::new((i + 1) as nat, |j: int| j as usize);
                assert(idx.drop_last() =~= Seq::new(i as nat, |j: int| j as usize));
                assert(idx.last() == i);
                assert(st[i as int] == self.ui_stack@[i as int].model());
                reveal(Seq::filter);
            }
            if yes {
                out.push(i);
            }
            i = i + 1;
        }
        out
    }

    /// Draw every widget, bottom to top, the top one focused.
    pub fn draw(&mut self)
        requires
            old(self).wf(),
            old(self).running(),
        ensures
            final(self).stack() == drawn_all(old(self).stack(), old(self).surface()),
            final(self).surface() == old(self).surface(),
            final(self).pending() == old(self).pending() + render_children(
                old(self).stack(),
                old(self).stack().len() - 1,
                old(self).surface(),
                true,
            ),
            final(self).wf(),
    {
        let ghost g0 = self.graphics.surface();
        let ghost ms = self.stack();
        let ghost old_ws = self.ui_stack@;
        let n = self.ui_stack.len();
        let f = n - 1;
        proof {
            lemma_all_wf(ms);
            lemma_all_drawable(ms, g0);
            assert(crate::widget::unfocused_renders(ms, f as int, g0, 0) =~= Seq::<DrawOp>::empty());
            assert forall|j: int| 0 <= j < n implies #[trigger] self.ui_stack@[j].model().wf() by {
                assert(ms[j] == self.ui_stack@[j].model());
            }
            assert forall|j: int| 0 <= j < n implies #[trigger] self.ui_stack@[j].model().drawable(g0) by {
                assert(ms[j] == self.ui_stack@[j].model());
                assert(ms[j].drawable(g0));
            }
        }
        let mut i: usize = 0;
        while i < n
            invariant
                n == self.ui_stack@.len(),
                n == old_ws.len(),
                old_ws == old(self).ui_stack@,
                ms == models(old_ws),
                f == n - 1,
                i <= n,
                forall|j: int| 0 <= j < n ==> #[trigger] ms[j].wf() && ms[j].drawable(g0),
                forall|j: int| 0 <= j < i && j != f ==> #[trigger] self.ui_stack@[j].model() == ms[j].drawn(g0),
                forall|j: int| 0 <= j < n && (j >= i || j == f) ==> #[trigger] self.ui_stack@[j] == old_ws[j],
                forall|j: int| 0 <= j < n ==> #[trigger] self.ui_stack@[j].model().wf(),
                forall|j: int| 0 <= j < n ==> #[trigger] self.ui_stack@[j].model().drawable(g0),
                self.graphics.surface() == g0,
                self.graphics.ops@ == old(self).graphics.ops@ + crate::widget::unfocused_renders(ms, f as int, g0, i as int),
            decreases n - i,
        {
            if i != f {
                let mut c = self.ui_stack.remove(i);
                assert(c.model() == ms[i as int]);
                c.draw(&mut self.graphics, false);
                self.ui_stack.insert(i, c);
            }
            proof {
                if i == f {
                    assert(crate::widget::child_piece(ms, f as int, g0, i as int) =~= Seq::<DrawOp>::empty());
                } else {
                    assert(crate::widget::child_piece(ms, f as int, g0, i as int) == ms[i as int].render(g0, false));
                }
                assert(self.graphics.ops@ =~= old(self).graphics.ops@ + crate::widget::unfocused_renders(ms, f as int, g0, i + 1));
            }
            i = i + 1;
        }
        let mut c = self.ui_stack.remove(f);
        assert(c.model() == ms[f as int]);
        c.draw(&mut self.graphics, true);
        self.ui_stack.insert(f, c);
        proof {
            assert(self.stack() =~= drawn_all(ms, g0));
            assert(self.graphics.ops@ =~= old(self).graphics.ops@ + render_children(ms, f as int, g0, true));
            lemma_all_wf(self.stack());
            lemma_all_drawable(self.stack(), g0);
        }
    }

    /// What one key does; see `stack_step`. A post is delivered to every
    /// widget on the stack that listens to its topic.
    pub fn step(&mut self, k: Key) -> (r: UIResult)
        requires
            old(self).wf(),
            old(self).running(),
        ensures
            final(self).stack() == stack_step(old(self).stack(), k, old(self).surface()).0,
            final(self).running() == stack_step(old(self).stack(), k, old(self).surface()).1,
            r@ == stack_step(old(self).stack(), k, old(self).surface()).2,
            final(self).pending() == old(self).pending() + stack_step(old(self).stack(), k, old(self).surface()).3,
            final(self).surface() == old(self).surface(),
            final(self).wf(),
    {
        let ghost g0 = self.graphics.surface();
        let ghost ms = self.stack();
        proof {
            lemma_all_wf(ms);
            lemma_all_drawable(ms, g0);
        }
        let n = self.ui_stack.len();
        let mut top = self.ui_stack.pop().unwrap();
        assert(top.model() == ms[n - 1]);
        let r = top.handle_key(k, &mut self.graphics);
        match r {
            UIResult::CLOSE => {
                proof {
                    assert(self.stack() =~= ms.drop_last());
                    lemma_all_wf(self.stack());
                    lemma_all_drawable(self.stack(), g0);
                }
                if self.ui_stack.len() == 0 {
                    return UIResult::CLOSE;
                }
                self.draw();
                proof {
                    assert(self.graphics.ops@ =~= old(self).graphics.ops@ + stack_step(ms, k, g0).3);
                }
                UIResult::CLOSE
            },
            _ => {
                self.ui_stack.push(top);
                proof {
                    assert(self.stack() =~= ms.update(n - 1, top.model()));
                    lemma_all_wf(self.stack());
                    lemma_all_drawable(self.stack(), g0);
                }
                if let UIResult::POST(topic, data) = &r {
                    self.broadcast(topic, data);
                }
                r
            },
        }
    }

    /// Deliver a post to every widget on the stack that listens to `topic`.
    fn broadcast(&mut self, topic: &String, data: &String)
        ensures
            final(self).stack() == old(self).stack(),
            final(self).graphics == old(self).graphics,
    {
        let n = self.ui_stack.len();
        let mut i: usize = 0;
        while i < n
            invariant
                n == self.ui_stack@.len(),
                n == old(self).ui_stack@.len(),
                i <= n,
                self.graphics == old(self).graphics,
                forall|j: int| 0 <= j < n ==> #[trigger] self.ui_stack@[j].model() == old(self).ui_stack@[j].model(),
            decreases n - i,
        {
            if subscribed(self.ui_stack[i].get_subscriptions(), topic) {
                let mut w = self.ui_stack.remove(i);
                w.handle_post(topic.clone(), data.clone());
                self.ui_stack.insert(i, w);
            }
            i = i + 1;
        }
        proof {
            assert(self.stack() =~= old(self).stack());
        }
    }
}

} // verus!
