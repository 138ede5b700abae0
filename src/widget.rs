//! The widget tree: the closed set of widgets, the container that focuses
//! one of its children, and the menu and text input built on it.
use vstd::prelude::*;

use crate::button::{is_enter, Button, ButtonView};
use crate::event::{char_count, strings_view, Key, ScanCode, UIResult, UIResultView, NEXT_WIDGET};
use vstd::string::StringExecFns;
use crate::graphics::{DrawOp, FontSize, Graphics, Surface};
use crate::text_area::{join_lines, lemma_draw_idempotent, split_lines, TextArea, TextAreaView, XOverflowBehavior, SCROLLOFF};

verus! {

/// Whether a menu's buttons stand in a row or in a column.
#[derive(Clone, Copy, PartialEq, Eq, Structural, Debug)]
pub enum MenuOrientation {
    HORIZONTAL,
    VERTICAL,
}

/// Any widget.
pub enum Widget {
    Button(Button),
    TextArea(TextArea),
    Menu(Menu),
    TextInput(TextInput),
    Multi(MultiWidget),
}

/// A widget that owns others and routes keys to the focused one.
pub struct MultiWidget {
    id: String,
    components: Vec<Widget>,
    focused: usize,
    dimensions: (usize, usize),
    subscriptions: Vec<String>,
}

/// A row or a column of buttons, moved through with the arrow keys.
pub struct Menu {
    id: String,
    orientation: MenuOrientation,
    multiwidget: MultiWidget,
    subscriptions: Vec<String>,
}

/// A text area with a "save" / "cancel" menu under it.
pub struct TextInput {
    id: String,
    multiwidget: MultiWidget,
    subscriptions: Vec<String>,
}

/// The mathematical state of a widget.
pub enum WidgetModel {
    Button(ButtonView),
    TextArea(TextAreaView),
    Menu(MenuModel),
    TextInput(TextInputModel),
    Multi(MultiModel),
}

pub struct MultiModel {
    pub id: Seq<char>,
    pub children: Seq<WidgetModel>,
    pub focused: usize,
    pub dims: (usize, usize),
    pub subscriptions: Seq<Seq<char>>,
}

pub struct MenuModel {
    pub id: Seq<char>,
    pub orientation: MenuOrientation,
    pub multi: MultiModel,
    pub subscriptions: Seq<Seq<char>>,
}

pub struct TextInputModel {
    pub id: Seq<char>,
    pub multi: MultiModel,
    pub subscriptions: Seq<Seq<char>>,
}

/// The id under which a text input's text area is found.
pub open spec fn text_area_id(id: Seq<char>) -> Seq<char> {
    id + "_textarea"@
}

impl WidgetModel {
    pub open spec fn id(self) -> Seq<char> {
        match self {
            WidgetModel::Button(b) => b.id,
            WidgetModel::TextArea(t) => t.id,
            WidgetModel::Menu(m) => m.id,
            WidgetModel::TextInput(t) => t.id,
            WidgetModel::Multi(m) => m.id,
        }
    }

    /// The topics the widget listens to.
    pub open spec fn subscriptions(self) -> Seq<Seq<char>> {
        match self {
            WidgetModel::Button(b) => b.subscriptions,
            WidgetModel::TextArea(t) => t.subscriptions,
            WidgetModel::Menu(m) => m.subscriptions,
            WidgetModel::TextInput(t) => t.subscriptions,
            WidgetModel::Multi(m) => m.subscriptions,
        }
    }

    /// Every container has children and focuses one of them; a menu holds
    /// buttons; a text input holds its text area, then a menu.
    pub open spec fn wf(self) -> bool
        decreases self,
    {
        match self {
            WidgetModel::Button(_) => true,
            WidgetModel::TextArea(t) => t.wf(),
            WidgetModel::Menu(m) => {
                &&& m.multi.shape_ok()
                &&& forall|i: int| 0 <= i < m.multi.children.len() ==> #[trigger] m.multi.children[i] is Button
            },
            WidgetModel::TextInput(t) => {
                &&& t.multi.shape_ok()
                &&& t.multi.children.len() == 2
                &&& t.multi.children[0] is TextArea
                &&& t.multi.children[0].id() == text_area_id(t.id)
                &&& t.multi.children[0].wf()
                &&& t.multi.children[1] is Menu
                &&& t.multi.children[1].wf()
            },
            WidgetModel::Multi(m) => {
                &&& m.shape_ok()
                &&& children_wf(m)
            },
        }
    }

    /// Every part can be drawn on `g`.
    pub open spec fn drawable(self, g: Surface) -> bool
        decreases self,
    {
        match self {
            WidgetModel::Button(b) => b.drawable(g),
            WidgetModel::TextArea(t) => t.drawable(g),
            WidgetModel::Menu(m) => children_drawable(m.multi, g),
            WidgetModel::TextInput(t) => children_drawable(t.multi, g),
            WidgetModel::Multi(m) => children_drawable(m, g),
        }
    }

    /// The value a widget holds: a button's label, a text area's text; a
    /// container gives its focused child's, a text input its text area's.
    pub open spec fn value(self) -> Seq<char>
        decreases self,
    {
        match self {
            WidgetModel::Button(b) => b.label,
            WidgetModel::TextArea(t) => join_lines(t.lines),
            WidgetModel::Menu(m) => if m.multi.focused < m.multi.children.len() {
                m.multi.children[m.multi.focused as int].value()
            } else {
                Seq::empty()
            },
            WidgetModel::TextInput(t) => if t.multi.children.len() > 0 {
                t.multi.children[0].value()
            } else {
                Seq::empty()
            },
            WidgetModel::Multi(m) => if m.focused < m.children.len() {
                m.children[m.focused as int].value()
            } else {
                Seq::empty()
            },
        }
    }

    /// The state after a draw on `g`: text areas sized and scrolled.
    pub open spec fn drawn(self, g: Surface) -> WidgetModel
        decreases self,
    {
        match self {
            WidgetModel::Button(b) => self,
            WidgetModel::TextArea(t) => WidgetModel::TextArea(t.drawn(g)),
            WidgetModel::Menu(m) => WidgetModel::Menu(
                MenuModel { multi: MultiModel { children: drawn_all(m.multi.children, g), ..m.multi }, ..m },
            ),
            WidgetModel::TextInput(t) => WidgetModel::TextInput(
                TextInputModel { multi: MultiModel { children: drawn_all(t.multi.children, g), ..t.multi }, ..t },
            ),
            WidgetModel::Multi(m) => WidgetModel::Multi(MultiModel { children: drawn_all(m.children, g), ..m }),
        }
    }

    /// What a draw records.
    pub open spec fn render(self, g: Surface, focused: bool) -> Seq<DrawOp>
        decreases self, 2int,
    {
        match self {
            WidgetModel::Button(b) => b.render(g, focused),
            WidgetModel::TextArea(t) => t.drawn(g).render(g.theme, focused),
            WidgetModel::Menu(m) => render_children(m.multi.children, m.multi.focused as int, g, focused),
            WidgetModel::TextInput(t) => render_children(t.multi.children, t.multi.focused as int, g, focused),
            WidgetModel::Multi(m) => render_children(m.children, m.focused as int, g, focused),
        }
    }

    /// What a key does: the next state, the result, and what is drawn.
    pub open spec fn key_step(self, k: Key, g: Surface) -> (WidgetModel, UIResultView, Seq<DrawOp>)
        decreases self,
    {
        match self {
            WidgetModel::Button(b) => (self, b.key_result(k), Seq::empty()),
            WidgetModel::TextArea(t) => if t.key_edit(k).2 {
                let d = t.edited(k).drawn(g);
                (WidgetModel::TextArea(d), UIResultView::OK, d.render(g.theme, true))
            } else {
                (self, UIResultView::OK, Seq::empty())
            },
            WidgetModel::Menu(m) => {
                let horizontal = m.orientation == MenuOrientation::HORIZONTAL;
                if is_enter(k) {
                    let (mm, r, ops) = multi_key_step(m.multi, k, g);
                    (
                        WidgetModel::Menu(MenuModel { multi: mm, ..m }),
                        match r {
                            UIResultView::POST(_, data) => UIResultView::POST(m.id, data),
                            _ => UIResultView::OK,
                        },
                        ops,
                    )
                } else if k == Key::Special(ScanCode::Escape) {
                    (self, UIResultView::CLOSE, Seq::empty())
                } else if (horizontal && k == Key::Special(ScanCode::Left)) || (!horizontal && k
                    == Key::Special(ScanCode::Up)) {
                    let (mm, ops) = focus_prev_step(m.multi, g);
                    (WidgetModel::Menu(MenuModel { multi: mm, ..m }), UIResultView::OK, ops)
                } else if (horizontal && k == Key::Special(ScanCode::Right)) || (!horizontal && k
                    == Key::Special(ScanCode::Down)) {
                    let (mm, ops) = focus_next_step(m.multi, g);
                    (WidgetModel::Menu(MenuModel { multi: mm, ..m }), UIResultView::OK, ops)
                } else {
                    (self, UIResultView::OK, Seq::empty())
                }
            },
            WidgetModel::TextInput(t) => if k == Key::Special(ScanCode::Escape) {
                (self, UIResultView::CLOSE, Seq::empty())
            } else {
                let (mm, r, ops) = multi_key_step(t.multi, k, g);
                let next = WidgetModel::TextInput(TextInputModel { multi: mm, ..t });
                match r {
                    UIResultView::POST(_, data) => if data == "cancel"@ {
                        (next, UIResultView::CLOSE, ops)
                    } else if data == "save"@ {
                        (next, UIResultView::POST(t.id, data), ops)
                    } else {
                        (next, r, ops)
                    },
                    _ => (next, r, ops),
                }
            },
            WidgetModel::Multi(m) => {
                let (mm, r, ops) = multi_key_step(m, k, g);
                (WidgetModel::Multi(mm), r, ops)
            },
        }
    }
}

impl MultiModel {
    /// There are children, and the focused one is among them.
    pub open spec fn shape_ok(self) -> bool {
        &&& self.children.len() >= 1
        &&& self.focused < self.children.len()
    }

    /// The same container focusing child `f`.
    pub open spec fn with_focus(self, f: usize) -> MultiModel {
        MultiModel { focused: f, ..self }
    }

    /// The index of the child after the focused one, wrapping around.
    pub open spec fn next_focus(self) -> usize {
        ((self.focused + 1) % (self.children.len() as int)) as usize
    }

    /// The index of the child before the focused one, wrapping around.
    pub open spec fn prev_focus(self) -> usize {
        if self.focused == 0 {
            (self.children.len() - 1) as usize
        } else {
            (self.focused - 1) as usize
        }
    }
}

/// Every widget of `ws` is well formed.
pub open spec fn all_wf(ws: Seq<WidgetModel>) -> bool
    decreases ws,
{
    if ws.len() == 0 {
        true
    } else {
        all_wf(ws.drop_last()) && ws.last().wf()
    }
}

/// Every widget of `ws` can be drawn on `g`.
pub open spec fn all_drawable(ws: Seq<WidgetModel>, g: Surface) -> bool
    decreases ws,
{
    if ws.len() == 0 {
        true
    } else {
        all_drawable(ws.drop_last(), g) && ws.last().drawable(g)
    }
}

/// Every child is well formed.
pub open spec fn children_wf(m: MultiModel) -> bool
    decreases m,
{
    all_wf(m.children)
}

/// Every child can be drawn on `g`.
pub open spec fn children_drawable(m: MultiModel, g: Surface) -> bool
    decreases m,
{
    all_drawable(m.children, g)
}

pub proof fn lemma_all_wf(ws: Seq<WidgetModel>)
    ensures
        all_wf(ws) <==> forall|i: int| 0 <= i < ws.len() ==> #[trigger] ws[i].wf(),
    decreases ws.len(),
{
    if ws.len() > 0 {
        let d = ws.drop_last();
        let k = ws.len() - 1;
        lemma_all_wf(d);
        assert(ws.last() == ws[k]);
        if forall|i: int| 0 <= i < ws.len() ==> #[trigger] ws[i].wf() {
            assert forall|i: int| 0 <= i < d.len() implies #[trigger] d[i].wf() by {
                assert(d[i] == ws[i]);
            }
            assert(ws[k].wf());
        }
        if all_wf(ws) {
            assert forall|i: int| 0 <= i < ws.len() implies #[trigger] ws[i].wf() by {
                if i < k {
                    assert(d[i] == ws[i]);
                    assert(d[i].wf());
                }
            }
        }
    }
}

pub proof fn lemma_all_drawable(ws: Seq<WidgetModel>, g: Surface)
    ensures
        all_drawable(ws, g) <==> forall|i: int| 0 <= i < ws.len() ==> #[trigger] ws[i].drawable(g),
    decreases ws.len(),
{
    if ws.len() > 0 {
        let d = ws.drop_last();
        let k = ws.len() - 1;
        lemma_all_drawable(d, g);
        assert(ws.last() == ws[k]);
        if forall|i: int| 0 <= i < ws.len() ==> #[trigger] ws[i].drawable(g) {
            assert forall|i: int| 0 <= i < d.len() implies #[trigger] d[i].drawable(g) by {
                assert(d[i] == ws[i]);
            }
            assert(ws[k].drawable(g));
        }
        if all_drawable(ws, g) {
            assert forall|i: int| 0 <= i < ws.len() implies #[trigger] ws[i].drawable(g) by {
                if i < k {
                    assert(d[i] == ws[i]);
                    assert(d[i].drawable(g));
                }
            }
        }
    }
}

/// What drawing child `i` records before the focused one is drawn: the
/// child unfocused, or nothing for the focused child itself.
pub open spec fn child_piece(ws: Seq<WidgetModel>, f: int, g: Surface, i: int) -> Seq<DrawOp>
    decreases ws, 0int,
{
    if 0 <= i < ws.len() && i != f {
        ws[i].render(g, false)
    } else {
        Seq::empty()
    }
}

/// The first index at or after `k` of a widget of `ws` with id `id`.
pub open spec fn index_of_id(ws: Seq<WidgetModel>, id: Seq<char>, k: int) -> int
    decreases ws.len() - k,
{
    if k < 0 || k >= ws.len() {
        ws.len() as int
    } else if ws[k].id() == id {
        k
    } else {
        index_of_id(ws, id, k + 1)
    }
}

/// Whether `topic` is one of `subs`.
pub open spec fn listens(subs: Seq<Seq<char>>, topic: Seq<char>) -> bool {
    subs.contains(topic)
}

/// What drawing the first `n` children records, the focused one skipped.
pub open spec fn unfocused_renders(ws: Seq<WidgetModel>, f: int, g: Surface, n: int) -> Seq<DrawOp>
    decreases ws, n,
{
    if n <= 0 || n > ws.len() {
        Seq::empty()
    } else {
        unfocused_renders(ws, f, g, n - 1) + child_piece(ws, f, g, n - 1)
    }
}

/// Every widget of `ws` after a draw.
pub open spec fn drawn_all(ws: Seq<WidgetModel>, g: Surface) -> Seq<WidgetModel>
    decreases ws,
{
    Seq::new(ws.len(), |i: int| if 0 <= i < ws.len() { ws[i].drawn(g) } else { ws[i] })
}

/// What drawing children records: every child but the focused one,
/// unfocused and in order, then the focused one last.
pub open spec fn render_children(ws: Seq<WidgetModel>, f: int, g: Surface, focused: bool) -> Seq<DrawOp>
    decreases ws, ws.len() + 1,
{
    unfocused_renders(ws, f, g, ws.len() as int) + if 0 <= f < ws.len() {
        ws[f].render(g, focused)
    } else {
        Seq::empty()
    }
}

/// Moving the focus to `f` and redrawing as focused.
pub open spec fn refocus_step(m: MultiModel, f: usize, g: Surface) -> (MultiModel, Seq<DrawOp>) {
    let n = m.with_focus(f);
    (MultiModel { children: drawn_all(n.children, g), ..n }, render_children(n.children, f as int, g, true))
}

/// Focus the next child, when there are at least two.
pub open spec fn focus_next_step(m: MultiModel, g: Surface) -> (MultiModel, Seq<DrawOp>) {
    if m.children.len() >= 2 {
        refocus_step(m, m.next_focus(), g)
    } else {
        (m, Seq::empty())
    }
}

/// Focus the previous child, when there are at least two.
pub open spec fn focus_prev_step(m: MultiModel, g: Surface) -> (MultiModel, Seq<DrawOp>) {
    if m.children.len() >= 2 {
        refocus_step(m, m.prev_focus(), g)
    } else {
        (m, Seq::empty())
    }
}

/// What a key does to a container: `^W` moves the focus on; any other key
/// goes to the focused child, which is removed if it asks to close.
pub open spec fn multi_key_step(m: MultiModel, k: Key, g: Surface) -> (MultiModel, UIResultView, Seq<DrawOp>)
    decreases m,
{
    if k == Key::Printable(NEXT_WIDGET) && m.children.len() > 0 {
        let (mm, ops) = refocus_step(m, m.next_focus(), g);
        (mm, UIResultView::OK, ops)
    } else if m.focused < m.children.len() {
        let f = m.focused as int;
        let (c, r, ops) = m.children[f].key_step(k, g);
        if r is CLOSE {
            let rest = m.children.remove(f);
            if rest.len() == 0 {
                (MultiModel { children: rest, ..m }, UIResultView::CLOSE, ops)
            } else {
                let nf = if m.focused < rest.len() { m.focused } else { (rest.len() - 1) as usize };
                let (mm, more) = refocus_step(MultiModel { children: rest, ..m }, nf, g);
                (mm, UIResultView::OK, ops + more)
            }
        } else {
            (MultiModel { children: m.children.update(f, c), ..m }, r, ops)
        }
    } else {
        (m, UIResultView::OK, Seq::empty())
    }
}

/// Space around a menu button's label, in pixels.
pub const BUTTON_PADDING: usize = 3;

/// The scale of the font on menu buttons.
pub const MENU_FONT_SCALE: usize = 2;

/// The length of the longest of `labels`.
pub open spec fn longest(labels: Seq<Seq<char>>) -> int
    decreases labels.len(),
{
    if labels.len() == 0 {
        0
    } else {
        let rest = longest(labels.drop_last());
        if labels.last().len() > rest {
            labels.last().len() as int
        } else {
            rest
        }
    }
}

/// The size of every button of a menu: wide enough for the longest label.
pub open spec fn menu_button_size(labels: Seq<Seq<char>>, g: Surface) -> (int, int) {
    (
        longest(labels) * (MENU_FONT_SCALE * g.font_width) + BUTTON_PADDING,
        MENU_FONT_SCALE * g.font_height + BUTTON_PADDING,
    )
}

/// Where a menu's first button goes and how far each next one is moved:
/// centered across the menu, spread evenly along it with equal gaps, or
/// packed from its start when they do not all fit.
pub open spec fn menu_layout(
    n: int,
    size: (int, int),
    start: (usize, usize),
    dims: (usize, usize),
    orientation: MenuOrientation,
) -> ((int, int), (int, int)) {
    let (bw, bh) = size;
    if orientation == MenuOrientation::VERTICAL {
        let x = start.0 + (dims.0 - bw) / 2;
        if bh * n >= dims.1 {
            ((x, start.1 as int), (0, bh))
        } else {
            let gap = (dims.1 - bh * n) / (n + 1);
            ((x, start.1 + gap), (0, bh + gap))
        }
    } else {
        let y = start.1 + (dims.1 - bh) / 2;
        if bw * n >= dims.0 {
            ((start.0 as int, y), (bw, 0))
        } else {
            let gap = (dims.0 - bw * n) / (n + 1);
            ((start.0 + gap, y), (bw + gap, 0))
        }
    }
}

/// The id of a menu's button for `label`.
pub open spec fn button_id(menu_id: Seq<char>, label: Seq<char>) -> Seq<char> {
    menu_id + label + "_button"@
}

/// A menu's layout fits on a surface addressed by `usize`.
pub open spec fn menu_fits(
    labels: Seq<Seq<char>>,
    start: (usize, usize),
    dims: (usize, usize),
    orientation: MenuOrientation,
    g: Surface,
) -> bool {
    let n = labels.len() as int;
    let (bw, bh) = menu_button_size(labels, g);
    let (first, step) = menu_layout(n, (bw, bh), start, dims, orientation);
    &&& n >= 1
    &&& forall|i: int| 0 <= i < n ==> #[trigger] labels[i].len() <= usize::MAX
    &&& MENU_FONT_SCALE * g.font_width <= usize::MAX
    &&& bw * n <= usize::MAX
    &&& bh * n <= usize::MAX
    &&& start.0 + dims.0 <= usize::MAX
    &&& start.1 + dims.1 <= usize::MAX
    &&& orientation == MenuOrientation::VERTICAL ==> bw <= dims.0
    &&& orientation == MenuOrientation::HORIZONTAL ==> bh <= dims.1
    &&& first.0 + (n - 1) * step.0 <= usize::MAX
    &&& first.1 + (n - 1) * step.1 <= usize::MAX
}

/// The buttons of a menu.
pub open spec fn menu_buttons(
    id: Seq<char>,
    labels: Seq<Seq<char>>,
    start: (usize, usize),
    dims: (usize, usize),
    orientation: MenuOrientation,
    g: Surface,
) -> Seq<WidgetModel> {
    let n = labels.len() as int;
    let size = menu_button_size(labels, g);
    let (first, step) = menu_layout(n, size, start, dims, orientation);
    Seq::new(
        labels.len(),
        |i: int|
            WidgetModel::Button(
                ButtonView {
                    id: button_id(id, labels[i]),
                    subscriptions: Seq::empty(),
                    label: labels[i],
                    start: ((first.0 + i * step.0) as usize, (first.1 + i * step.1) as usize),
                    dims_px: (size.0 as usize, size.1 as usize),
                    font_size: FontSize::P,
                },
            ),
    )
}

/// Height in pixels of the menu under a text input's text area.
pub const ACTION_MENU_HEIGHT: usize = 30;

/// The labels of a text input's menu.
pub open spec fn action_labels() -> Seq<Seq<char>> {
    seq!["save"@, "cancel"@]
}

/// A text input fits in the given area: room for the menu under the
/// text area, and for the menu's buttons.
pub open spec fn text_input_fits(start: (usize, usize), dims: (usize, usize), g: Surface) -> bool {
    &&& dims.1 >= ACTION_MENU_HEIGHT
    &&& start.0 + dims.0 <= usize::MAX
    &&& start.1 + dims.1 <= usize::MAX
    &&& menu_fits(
        action_labels(),
        (start.0, (start.1 + dims.1 - ACTION_MENU_HEIGHT) as usize),
        (dims.0, ACTION_MENU_HEIGHT),
        MenuOrientation::HORIZONTAL,
        g,
    )
}

impl Widget {
    pub closed spec fn model(&self) -> WidgetModel
        decreases self,
    {
        match self {
            Widget::Button(b) => WidgetModel::Button(b@),
            Widget::TextArea(t) => WidgetModel::TextArea(t@),
            Widget::Menu(m) => WidgetModel::Menu(m.model()),
            Widget::TextInput(t) => WidgetModel::TextInput(t.model()),
            Widget::Multi(m) => WidgetModel::Multi(m.model()),
        }
    }
}

impl Menu {
    pub closed spec fn model(&self) -> MenuModel
        decreases self,
    {
        MenuModel {
            id: self.id@,
            orientation: self.orientation,
            multi: self.multiwidget.model(),
            subscriptions: strings_view(self.subscriptions@),
        }
    }
}

impl TextInput {
    pub closed spec fn model(&self) -> TextInputModel
        decreases self,
    {
        TextInputModel {
            id: self.id@,
            multi: self.multiwidget.model(),
            subscriptions: strings_view(self.subscriptions@),
        }
    }
}

impl MultiWidget {
    pub closed spec fn model(&self) -> MultiModel
        decreases self,
    {
        MultiModel {
            id: self.id@,
            children: Seq::new(
                self.components@.len(),
                |i: int|
                    if 0 <= i < self.components@.len() {
                        self.components@[i].model()
                    } else {
                        WidgetModel::Multi(
                            MultiModel {
                                id: Seq::empty(),
                                children: Seq::empty(),
                                focused: 0,
                                dims: (0, 0),
                                subscriptions: Seq::empty(),
                            },
                        )
                    },
            ),
            focused: self.focused,
            dims: self.dimensions,
            subscriptions: strings_view(self.subscriptions@),
        }
    }
}

/// The models of a sequence of widgets.
pub open spec fn models(ws: Seq<Widget>) -> Seq<WidgetModel> {
    Seq::new(ws.len(), |i: int| ws[i].model())
}

/// The topics of all of `ws`, in order, repeats kept.
pub open spec fn all_subscriptions(ws: Seq<WidgetModel>) -> Seq<Seq<char>> {
    Seq::new(ws.len(), |i: int| ws[i].subscriptions()).flatten()
}

impl MultiWidget {
    proof fn lemma_children(&self)
        ensures
            self.model().children == models(self.components@),
    {
        assert(self.model().children =~= models(self.components@));
    }

    /// A container of `components`, focusing the one at `focused`, that
    /// listens to every topic any of them listens to.
    pub fn new(id: String, components: Vec<Widget>, focused: usize, dimensions: (usize, usize)) -> (r: MultiWidget)
        requires
            components@.len() >= 1,
            focused < components@.len(),
        ensures
            r.model() == (MultiModel {
                id: id@,
                children: models(components@),
                focused,
                dims: dimensions,
                subscriptions: all_subscriptions(models(components@)),
            }),
    {
        let ghost ms = models(components@);
        let mut subscriptions: Vec<String> = Vec::new();
        let n = components.len();
        let mut i: usize = 0;
        proof {
            assert(Seq::new(0, |j: int| ms[j].subscriptions()).flatten() =~= Seq::<Seq<char>>::empty());
        }
        while i < n
            invariant
                n == components@.len(),
                ms == models(components@),
                i <= n,
                strings_view(subscriptions@) == Seq::new(i as nat, |j: int| ms[j].subscriptions()).flatten(),
            decreases n - i,
        {
            let subs = components[i].get_subscriptions();
            let ghost before = strings_view(subscriptions@);
            let m = subs.len();
            let mut j: usize = 0;
            while j < m
                invariant
                    m == subs@.len(),
                    j <= m,
                    strings_view(subscriptions@) == before + strings_view(subs@).take(j as int),
                decreases m - j,
            {
                let one = subs[j].clone();
                assert(one@ == strings_view(subs@)[j as int]);
                let ghost prev = subscriptions@;
                subscriptions.push(one);
                proof {
                    assert(strings_view(subscriptions@) =~= strings_view(prev).push(one@));
                    assert(strings_view(subs@).take(j + 1) =~= strings_view(subs@).take(j as int).push(one@));
                    assert(strings_view(subscriptions@) =~= before + strings_view(subs@).take(j + 1));
                }
                j = j + 1;
            }
            proof {
                assert(strings_view(subs@).take(m as int) =~= strings_view(subs@));
                let prev = Seq::new(i as nat, |k: int| ms[k].subscriptions());
                let next = Seq::new((i + 1) as nat, |k: int| ms[k].subscriptions());
                assert(next =~= prev.push(ms[i as int].subscriptions()));
                prev.lemma_flatten_push(ms[i as int].subscriptions());
            }
            i = i + 1;
        }
        let r = MultiWidget { id, components, focused, dimensions, subscriptions };
        proof {
            r.lemma_children();
        }
        r
    }

    pub fn id(&self) -> (r: &String)
        ensures
            r@ == self.model().id,
    {
        &self.id
    }

    pub fn get_subscriptions(&self) -> (r: &Vec<String>)
        ensures
            strings_view(r@) == self.model().subscriptions,
    {
        &self.subscriptions
    }

    pub fn dimensions(&self) -> (r: (usize, usize))
        ensures
            r == self.model().dims,
    {
        self.dimensions
    }

    /// Draw every child but the focused one as unfocused, in order, then
    /// the focused one last, focused when `focused`.
    pub fn draw(&mut self, g: &mut Graphics, focused: bool)
        requires
            old(self).model().shape_ok(),
            children_wf(old(self).model()),
            children_drawable(old(self).model(), old(g).surface()),
        ensures
            final(self).model() == (MultiModel { children: drawn_all(old(self).model().children, old(g).surface()), ..old(self).model() }),
            children_wf(final(self).model()),
            children_drawable(final(self).model(), old(g).surface()),
            final(g).same_surface(old(g)),
            final(g).ops@ == old(g).ops@ + render_children(old(self).model().children, old(self).model().focused as int, old(g).surface(), focused),
        decreases *old(self),
    {
        let ghost g0 = old(g).surface();
        let ghost old_ws = old(self).components@;
        let ghost ms = models(old_ws);
        proof {
            old(self).lemma_children();
            lemma_all_wf(old(self).model().children);
            lemma_all_drawable(old(self).model().children, g0);
        }
        let n = self.components.len();
        let f = self.focused;
        let mut i: usize = 0;
        proof {
            assert(unfocused_renders(ms, f as int, g0, 0) =~= Seq::<DrawOp>::empty());
            assert forall|j: int| 0 <= j < n implies #[trigger] ms[j].wf() && ms[j].drawable(g0) by {
                assert(ms[j] == old(self).model().children[j]);
            }
            assert forall|j: int| 0 <= j < n implies #[trigger] self.components@[j].model().wf() by {
                assert(ms[j] == self.components@[j].model());
            }
            assert forall|j: int| 0 <= j < n implies #[trigger] self.components@[j].model().drawable(g0) by {
                assert(ms[j] == self.components@[j].model());
            }
        }
        while i < n
            invariant
                n == self.components@.len(),
                n == old_ws.len(),
                old_ws == old(self).components@,
                f == self.focused,
                f == old(self).focused,
                f < n,
                ms == models(old_ws),
                self.id == old(self).id,
                self.dimensions == old(self).dimensions,
                self.subscriptions == old(self).subscriptions,
                i <= n,
                forall|j: int| 0 <= j < n ==> #[trigger] ms[j].wf() && ms[j].drawable(g0),
                forall|j: int| 0 <= j < i && j != f ==> #[trigger] self.components@[j].model() == ms[j].drawn(g0),
                forall|j: int| 0 <= j < n && (j >= i || j == f) ==> #[trigger] self.components@[j] == old_ws[j],
                forall|j: int| 0 <= j < n ==> #[trigger] self.components@[j].model().wf(),
                forall|j: int| 0 <= j < n ==> #[trigger] self.components@[j].model().drawable(g0),
                g.surface() == g0,
                g.ops@ == old(g).ops@ + unfocused_renders(ms, f as int, g0, i as int),
            decreases n - i,
        {
            if i != f {
                let mut c = self.components.remove(i);
                proof {
                    assert(c == old_ws[i as int]);
                    assert(c.model() == ms[i as int]);
                    assert(decreases_to!(*old(self) => c)) by {
                        broadcast use vstd::std_specs::vec::axiom_vec_index_decreases;
                        let ws = old(self).components;
                        assert(decreases_to!(ws => ws[i as int]));
                        assert(ws[i as int] == c);
                    }
                }
                c.draw(g, false);
                self.components.insert(i, c);
            }
            proof {
                if i == f {
                    assert(child_piece(ms, f as int, g0, i as int) =~= Seq::<DrawOp>::empty());
                } else {
                    assert(child_piece(ms, f as int, g0, i as int) == ms[i as int].render(g0, false));
                }
                assert(g.ops@ =~= old(g).ops@ + unfocused_renders(ms, f as int, g0, i + 1));
            }
            i = i + 1;
        }
        let ghost before_focus = g.ops@;
        let mut c = self.components.remove(f);
        proof {
            assert(c == old_ws[f as int]);
            assert(c.model() == ms[f as int]);
            assert(decreases_to!(*old(self) => c)) by {
                broadcast use vstd::std_specs::vec::axiom_vec_index_decreases;
                let ws = old(self).components;
                assert(decreases_to!(ws => ws[f as int]));
                assert(ws[f as int] == c);
            }
        }
        c.draw(g, focused);
        assert(g.ops@ == before_focus + ms[f as int].render(g0, focused));
        self.components.insert(f, c);
        proof {

            self.lemma_children();
            assert(self.model().children =~= drawn_all(ms, g0));
            lemma_all_wf(self.model().children);
            lemma_all_drawable(self.model().children, g0);
            assert(g.ops@ =~= old(g).ops@ + render_children(ms, f as int, g0, focused));
        }
    }
}

impl Menu {
    /// Draw the buttons; see `MultiWidget::draw`.
    pub fn draw(&mut self, g: &mut Graphics, focused: bool)
        requires
            WidgetModel::Menu(old(self).model()).wf(),
            WidgetModel::Menu(old(self).model()).drawable(old(g).surface()),
        ensures
            WidgetModel::Menu(final(self).model()) == WidgetModel::Menu(old(self).model()).drawn(old(g).surface()),
            WidgetModel::Menu(final(self).model()).wf(),
            WidgetModel::Menu(final(self).model()).drawable(old(g).surface()),
            final(g).same_surface(old(g)),
            final(g).ops@ == old(g).ops@ + WidgetModel::Menu(old(self).model()).render(old(g).surface(), focused),
        decreases *old(self),
    {
        let ghost g0 = old(g).surface();
        let ghost mm = self.multiwidget.model();
        proof {
            assert forall|i: int| 0 <= i < mm.children.len() implies #[trigger] mm.children[i].wf() by {
                assert(mm.children[i] is Button);
            }
            lemma_all_wf(mm.children);
        }
        self.multiwidget.draw(g, focused);
        proof {
            let after = self.multiwidget.model();
            assert forall|i: int| 0 <= i < after.children.len() implies #[trigger] after.children[i] is Button by {
                assert(mm.children[i] is Button);
                assert(after.children[i] == mm.children[i].drawn(g0));
            }
        }
    }
}

impl TextInput {
    /// Draw the text area and the menu; see `MultiWidget::draw`.
    pub fn draw(&mut self, g: &mut Graphics, focused: bool)
        requires
            WidgetModel::TextInput(old(self).model()).wf(),
            WidgetModel::TextInput(old(self).model()).drawable(old(g).surface()),
        ensures
            WidgetModel::TextInput(final(self).model()) == WidgetModel::TextInput(old(self).model()).drawn(old(g).surface()),
            WidgetModel::TextInput(final(self).model()).wf(),
            WidgetModel::TextInput(final(self).model()).drawable(old(g).surface()),
            final(g).same_surface(old(g)),
            final(g).ops@ == old(g).ops@ + WidgetModel::TextInput(old(self).model()).render(old(g).surface(), focused),
        decreases *old(self),
    {
        let ghost g0 = old(g).surface();
        let ghost mm = self.multiwidget.model();
        proof {
            assert forall|i: int| 0 <= i < mm.children.len() implies #[trigger] mm.children[i].wf() by {
                if i == 1 {
                }
            }
            lemma_all_wf(mm.children);
        }
        self.multiwidget.draw(g, focused);
        proof {
            let after = self.multiwidget.model();
            lemma_all_wf(after.children);
            assert(after.children[0] == mm.children[0].drawn(g0));
            assert(after.children[1] == mm.children[1].drawn(g0));
            assert(after.children[0].wf());
            assert(after.children[1].wf());
        }
    }
}

impl Widget {
    pub fn id(&self) -> (r: &String)
        ensures
            r@ == self.model().id(),
    {
        match self {
            Widget::Button(b) => b.id(),
            Widget::TextArea(t) => t.id(),
            Widget::Menu(m) => &m.id,
            Widget::TextInput(t) => &t.id,
            Widget::Multi(m) => m.id(),
        }
    }

    /// The topics the widget listens to.
    pub fn get_subscriptions(&self) -> (r: &Vec<String>)
        ensures
            strings_view(r@) == self.model().subscriptions(),
    {
        match self {
            Widget::Button(b) => b.get_subscriptions(),
            Widget::TextArea(t) => t.get_subscriptions(),
            Widget::Menu(m) => &m.subscriptions,
            Widget::TextInput(t) => &t.subscriptions,
            Widget::Multi(m) => m.get_subscriptions(),
        }
    }

    /// Width and height in pixels.
    pub fn dimensions(&self) -> (r: (usize, usize))
        ensures
            r == match self.model() {
                WidgetModel::Button(b) => b.dims_px,
                WidgetModel::TextArea(t) => t.dims_px,
                WidgetModel::Menu(m) => m.multi.dims,
                WidgetModel::TextInput(t) => t.multi.dims,
                WidgetModel::Multi(m) => m.dims,
            },
    {
        match self {
            Widget::Button(b) => b.dimensions(),
            Widget::TextArea(t) => t.dimensions(),
            Widget::Menu(m) => m.multiwidget.dimensions(),
            Widget::TextInput(t) => t.multiwidget.dimensions(),
            Widget::Multi(m) => m.dimensions(),
        }
    }

    /// Draw the widget, focused or not.
    pub fn draw(&mut self, g: &mut Graphics, focused: bool)
        requires
            old(self).model().wf(),
            old(self).model().drawable(old(g).surface()),
        ensures
            final(self).model() == old(self).model().drawn(old(g).surface()),
            final(self).model().wf(),
            final(self).model().drawable(old(g).surface()),
            final(g).same_surface(old(g)),
            final(g).ops@ == old(g).ops@ + old(self).model().render(old(g).surface(), focused),
        decreases *old(self),
    {
        let ghost g0 = old(g).surface();
        let ghost w0 = old(self).model();
        match self {
            Widget::Button(b) => b.draw(g, focused),
            Widget::TextArea(t) => t.draw(g, focused),
            Widget::Menu(m) => m.draw(g, focused),
            Widget::TextInput(t) => t.draw(g, focused),
            Widget::Multi(m) => {
                proof {
                    assert(w0 == WidgetModel::Multi(m.model()));
                }
                m.draw(g, focused);
            },
        }
    }
}

/// Whether `topic` is among `subs`.
pub fn subscribed(subs: &Vec<String>, topic: &String) -> (r: bool)
    ensures
        r == listens(strings_view(subs@), topic@),
{
    let n = subs.len();
    let mut i: usize = 0;
    while i < n
        invariant
            n == subs@.len(),
            i <= n,
            forall|j: int| 0 <= j < i ==> subs@[j]@ != topic@,
        decreases n - i,
    {
        if subs[i] == *topic {
            proof {
                assert(strings_view(subs@)[i as int] == topic@);
            }
            return true;
        }
        i = i + 1;
    }
    proof {
        if strings_view(subs@).contains(topic@) {
            let j = choose|j: int| 0 <= j < strings_view(subs@).len() && strings_view(subs@)[j] == topic@;
            assert(subs@[j]@ == topic@);
        }
    }
    false
}

impl MultiWidget {
    /// The value of the focused child.
    pub fn get_value(&self) -> (r: String)
        requires
            self.model().shape_ok(),
            children_wf(self.model()),
        ensures
            r@ == WidgetModel::Multi(self.model()).value(),
        decreases *self,
    {
        proof {
            self.lemma_children();
            lemma_all_wf(self.model().children);
            assert(self.model().children[self.focused as int] == self.components@[self.focused as int].model());
            assert(decreases_to!(*self => self.components[self.focused as int])) by {
                broadcast use vstd::std_specs::vec::axiom_vec_index_decreases;
                let ws = self.components;
                assert(decreases_to!(ws => ws[self.focused as int]));
            }
        }
        self.components[self.focused].get_value()
    }

    /// The value of the first child whose id is `id`, whichever child is
    /// focused.
    pub fn get_value_for_id(&self, id: String) -> (r: String)
        requires
            index_of_id(self.model().children, id@, 0) < self.model().children.len(),
            children_wf(self.model()),
        ensures
            r@ == self.model().children[index_of_id(self.model().children, id@, 0)].value(),
        decreases *self,
    {
        let ghost ms = self.model().children;
        proof {
            self.lemma_children();
            lemma_all_wf(ms);
        }
        let n = self.components.len();
        let mut i: usize = 0;
        while i < n
            invariant
                n == self.components@.len(),
                ms == models(self.components@),
                ms == self.model().children,
                i <= n,
                index_of_id(ms, id@, i as int) == index_of_id(ms, id@, 0),
                index_of_id(ms, id@, 0) < ms.len(),
                forall|j: int| 0 <= j < ms.len() ==> #[trigger] ms[j].wf(),
            decreases n - i,
        {
            assert(ms[i as int] == self.components@[i as int].model());
            if *self.components[i].id() == id {
                proof {
                    assert(index_of_id(ms, id@, i as int) == i as int);
                    assert(decreases_to!(*self => self.components[i as int])) by {
                        broadcast use vstd::std_specs::vec::axiom_vec_index_decreases;
                        let ws = self.components;
                        assert(decreases_to!(ws => ws[i as int]));
                    }
                }
                return self.components[i].get_value();
            }
            i = i + 1;
        }
        proof {
            assert(index_of_id(ms, id@, n as int) == ms.len());
        }
        self.components[0].get_value()
    }

    /// Focus the next child, wrapping around, and redraw as focused; only
    /// when there are at least two children.
    pub fn focus_next(&mut self, g: &mut Graphics)
        requires
            old(self).model().shape_ok(),
            children_wf(old(self).model()),
            children_drawable(old(self).model(), old(g).surface()),
        ensures
            final(self).model() == focus_next_step(old(self).model(), old(g).surface()).0,
            final(g).ops@ == old(g).ops@ + focus_next_step(old(self).model(), old(g).surface()).1,
            final(g).same_surface(old(g)),
            final(self).model().shape_ok(),
            children_wf(final(self).model()),
            children_drawable(final(self).model(), old(g).surface()),
    {
        let n = self.components.len();
        if n >= 2 {
            self.focused = (self.focused + 1) % n;
            proof {
                self.lemma_children();
                old(self).lemma_children();
            }
            self.draw(g, true);
        } else {
            proof {
                assert(old(g).ops@ + Seq::<DrawOp>::empty() =~= old(g).ops@);
            }
        }
    }

    /// Focus the previous child, wrapping around, and redraw as focused;
    /// only when there are at least two children.
    pub fn focus_prev(&mut self, g: &mut Graphics)
        requires
            old(self).model().shape_ok(),
            children_wf(old(self).model()),
            children_drawable(old(self).model(), old(g).surface()),
        ensures
            final(self).model() == focus_prev_step(old(self).model(), old(g).surface()).0,
            final(g).ops@ == old(g).ops@ + focus_prev_step(old(self).model(), old(g).surface()).1,
            final(g).same_surface(old(g)),
            final(self).model().shape_ok(),
            children_wf(final(self).model()),
            children_drawable(final(self).model(), old(g).surface()),
    {
        let n = self.components.len();
        if n >= 2 {
            if self.focused == 0 {
                self.focused = n - 1;
            } else {
                self.focused = self.focused - 1;
            }
            proof {
                self.lemma_children();
                old(self).lemma_children();
            }
            self.draw(g, true);
        } else {
            proof {
                assert(old(g).ops@ + Seq::<DrawOp>::empty() =~= old(g).ops@);
            }
        }
    }

    /// Deliver a post to every child subscribed to `id`. No widget changes
    /// its state on a post.
    pub fn handle_post(&mut self, id: String, data: String)
        ensures
            final(self).model() == old(self).model(),
        decreases *old(self),
    {
        let n = self.components.len();
        let mut i: usize = 0;
        while i < n
            invariant
                n == self.components@.len(),
                n == old(self).components@.len(),
                i <= n,
                self.model() == old(self).model(),
                forall|j: int| i <= j < n ==> #[trigger] self.components@[j] == old(self).components@[j],
                forall|j: int| 0 <= j < n ==> #[trigger] self.components@[j].model() == old(self).components@[j].model(),
            decreases n - i,
        {
            if subscribed(self.components[i].get_subscriptions(), &id) {
                let mut c = self.components.remove(i);
                proof {
                    assert(decreases_to!(*old(self) => c)) by {
                        broadcast use vstd::std_specs::vec::axiom_vec_index_decreases;
                        let ws = old(self).components;
                        assert(decreases_to!(ws => ws[i as int]));
                        assert(ws[i as int] == c);
                    }
                }
                c.handle_post(id.clone(), data.clone());
                self.components.insert(i, c);
            }
            proof {
                self.lemma_children();
                old(self).lemma_children();
                assert(self.model().children =~= old(self).model().children);
            }
            i = i + 1;
        }
    }

    /// Handle a key: `^W` focuses the next child and redraws; any other key
    /// goes to the focused child. A child that asks to close is removed;
    /// the container then asks to close itself if it is left empty, and
    /// otherwise keeps the focus in range, redraws as focused and returns
    /// `UIResult::OK`. Any other result passes through.
    #[verifier::rlimit(80)]
    pub fn handle_key(&mut self, k: Key, g: &mut Graphics) -> (r: UIResult)
        requires
            old(self).model().shape_ok(),
            children_wf(old(self).model()),
            children_drawable(old(self).model(), old(g).surface()),
        ensures
            final(self).model() == multi_key_step(old(self).model(), k, old(g).surface()).0,
            r@ == multi_key_step(old(self).model(), k, old(g).surface()).1,
            final(g).ops@ == old(g).ops@ + multi_key_step(old(self).model(), k, old(g).surface()).2,
            final(g).same_surface(old(g)),
            !(r is CLOSE) ==> final(self).model().shape_ok() && children_wf(final(self).model())
                && children_drawable(final(self).model(), old(g).surface()),
        decreases *old(self),
    {
        let ghost g0 = old(g).surface();
        let ghost m0 = old(self).model();
        proof {
            old(self).lemma_children();
            lemma_all_wf(m0.children);
            lemma_all_drawable(m0.children, g0);
        }
        if k == Key::Printable(NEXT_WIDGET) {
            let n = self.components.len();
            self.focused = (self.focused + 1) % n;
            proof {
                self.lemma_children();
            }
            self.draw(g, true);
            return UIResult::OK;
        }
        let f = self.focused;
        let mut c = self.components.remove(f);
        proof {
            assert(c.model() == m0.children[f as int]);
            assert(decreases_to!(*old(self) => c)) by {
                broadcast use vstd::std_specs::vec::axiom_vec_index_decreases;
                let ws = old(self).components;
                assert(decreases_to!(ws => ws[f as int]));
                assert(ws[f as int] == c);
            }
        }
        let r = c.handle_key(k, g);
        if let UIResult::CLOSE = r {
            if self.components.len() == 0 {
                proof {
                    self.lemma_children();
                    assert(self.model().children =~= m0.children.remove(f as int));
                }
                return UIResult::CLOSE;
            }
            let len = self.components.len();
            if self.focused >= len {
                self.focused = len - 1;
            }
            proof {
                self.lemma_children();
                assert(self.model().children =~= m0.children.remove(f as int));
                let rest = m0.children.remove(f as int);
                assert forall|i: int| 0 <= i < rest.len() implies #[trigger] rest[i].wf() && rest[i].drawable(g0) by {
                    if i < f {
                        assert(rest[i] == m0.children[i]);
                    } else {
                        assert(rest[i] == m0.children[i + 1]);
                    }
                }
                lemma_all_wf(rest);
                lemma_all_drawable(rest, g0);
            }
            self.draw(g, true);
            proof {
                assert(g.ops@ =~= old(g).ops@ + multi_key_step(m0, k, g0).2);
            }
            return UIResult::OK;
        }
        self.components.insert(f, c);
        proof {
            self.lemma_children();
            let ws = m0.children.update(f as int, c.model());
            assert(self.model().children =~= ws);
            assert forall|i: int| 0 <= i < ws.len() implies #[trigger] ws[i].wf() && ws[i].drawable(g0) by {
                if i != f {
                    assert(ws[i] == m0.children[i]);
                }
            }
            lemma_all_wf(ws);
            lemma_all_drawable(ws, g0);
        }
        r
    }
}

impl Menu {
    /// The label of the focused button.
    pub fn get_value(&self) -> (r: String)
        requires
            WidgetModel::Menu(self.model()).wf(),
        ensures
            r@ == WidgetModel::Menu(self.model()).value(),
        decreases *self,
    {
        proof {
            let mm = self.multiwidget.model();
            assert forall|i: int| 0 <= i < mm.children.len() implies #[trigger] mm.children[i].wf() by {
                assert(mm.children[i] is Button);
            }
            lemma_all_wf(mm.children);
        }
        self.multiwidget.get_value()
    }

    /// Enter goes to the focused button, and a post from it is made
    /// again under the menu's own id; Escape asks to close; the arrows
    /// along the menu's direction move the focus. Other keys do nothing.
    pub fn handle_key(&mut self, k: Key, g: &mut Graphics) -> (r: UIResult)
        requires
            WidgetModel::Menu(old(self).model()).wf(),
            WidgetModel::Menu(old(self).model()).drawable(old(g).surface()),
        ensures
            WidgetModel::Menu(final(self).model()) == WidgetModel::Menu(old(self).model()).key_step(k, old(g).surface()).0,
            r@ == WidgetModel::Menu(old(self).model()).key_step(k, old(g).surface()).1,
            final(g).ops@ == old(g).ops@ + WidgetModel::Menu(old(self).model()).key_step(k, old(g).surface()).2,
            final(g).same_surface(old(g)),
            WidgetModel::Menu(final(self).model()).wf(),
            WidgetModel::Menu(final(self).model()).drawable(old(g).surface()),
        decreases *old(self),
    {
        let ghost g0 = old(g).surface();
        let ghost mm = self.multiwidget.model();
        proof {
            assert forall|i: int| 0 <= i < mm.children.len() implies #[trigger] mm.children[i].wf() by {
                assert(mm.children[i] is Button);
            }
            lemma_all_wf(mm.children);
            assert(old(g).ops@ + Seq::<DrawOp>::empty() =~= old(g).ops@);
        }
        let horizontal = self.orientation == MenuOrientation::HORIZONTAL;
        let r = match k {
            Key::Printable(c) => {
                if c == '\n' || c == '\r' {
                    let res = self.multiwidget.handle_key(k, g);
                    match res {
                        UIResult::POST(_topic, data) => UIResult::POST(self.id.clone(), data),
                        _ => UIResult::OK,
                    }
                } else {
                    UIResult::OK
                }
            },
            Key::Special(ScanCode::Escape) => UIResult::CLOSE,
            Key::Special(ScanCode::Left) => {
                if horizontal {
                    self.multiwidget.focus_prev(g);
                }
                UIResult::OK
            },
            Key::Special(ScanCode::Right) => {
                if horizontal {
                    self.multiwidget.focus_next(g);
                }
                UIResult::OK
            },
            Key::Special(ScanCode::Up) => {
                if !horizontal {
                    self.multiwidget.focus_prev(g);
                }
                UIResult::OK
            },
            Key::Special(ScanCode::Down) => {
                if !horizontal {
                    self.multiwidget.focus_next(g);
                }
                UIResult::OK
            },
            _ => UIResult::OK,
        };
        proof {
            let after = self.multiwidget.model();
            assert forall|i: int| 0 <= i < after.children.len() implies #[trigger] after.children[i] is Button by {
                assert(mm.children[i] is Button);
            }
        }
        r
    }
}

impl TextInput {
    /// The text of the text area, whichever part is focused.
    pub fn get_value(&self) -> (r: String)
        requires
            WidgetModel::TextInput(self.model()).wf(),
        ensures
            r@ == WidgetModel::TextInput(self.model()).value(),
        decreases *self,
    {
        let textarea_id = self.id.clone().concat("_textarea");
        proof {
            let mm = self.multiwidget.model();
            assert(index_of_id(mm.children, textarea_id@, 0) == 0);
            assert forall|i: int| 0 <= i < mm.children.len() implies #[trigger] mm.children[i].wf() by {
                if i == 1 {
                }
            }
            lemma_all_wf(mm.children);
        }
        self.multiwidget.get_value_for_id(textarea_id)
    }

    /// Escape asks to close; other keys go to the text area or the menu. A
    /// "cancel" from the menu asks to close; a "save" is posted again under
    /// the text input's own id.
    pub fn handle_key(&mut self, k: Key, g: &mut Graphics) -> (r: UIResult)
        requires
            WidgetModel::TextInput(old(self).model()).wf(),
            WidgetModel::TextInput(old(self).model()).drawable(old(g).surface()),
        ensures
            WidgetModel::TextInput(final(self).model()) == WidgetModel::TextInput(old(self).model()).key_step(k, old(g).surface()).0,
            r@ == WidgetModel::TextInput(old(self).model()).key_step(k, old(g).surface()).1,
            final(g).ops@ == old(g).ops@ + WidgetModel::TextInput(old(self).model()).key_step(k, old(g).surface()).2,
            final(g).same_surface(old(g)),
            WidgetModel::TextInput(final(self).model()).wf(),
            WidgetModel::TextInput(final(self).model()).drawable(old(g).surface()),
        decreases *old(self),
    {
        let ghost g0 = old(g).surface();
        let ghost mm = self.multiwidget.model();
        proof {
            assert forall|i: int| 0 <= i < mm.children.len() implies #[trigger] mm.children[i].wf() by {
                if i == 1 {
                }
            }
            lemma_all_wf(mm.children);
            assert(old(g).ops@ + Seq::<DrawOp>::empty() =~= old(g).ops@);
        }
        if k == Key::Special(ScanCode::Escape) {
            return UIResult::CLOSE;
        }
        let result = self.multiwidget.handle_key(k, g);
        let cancel = String::from_str("cancel");
        let save = String::from_str("save");
        match result {
            UIResult::POST(topic, data) => {
                if data == cancel {
                    UIResult::CLOSE
                } else if data == save {
                    UIResult::POST(self.id.clone(), data)
                } else {
                    UIResult::POST(topic, data)
                }
            },
            other => other,
        }
    }
}

impl Widget {
    /// The value the widget holds; see `WidgetModel::value`.
    pub fn get_value(&self) -> (r: String)
        requires
            self.model().wf(),
        ensures
            r@ == self.model().value(),
        decreases *self,
    {
        match self {
            Widget::Button(b) => b.get_value(),
            Widget::TextArea(t) => t.get_value(),
            Widget::Menu(m) => m.get_value(),
            Widget::TextInput(t) => t.get_value(),
            Widget::Multi(m) => m.get_value(),
        }
    }

    /// Deliver a post. Only containers pass it on; no widget changes its
    /// state on a post.
    pub fn handle_post(&mut self, id: String, data: String)
        ensures
            final(self).model() == old(self).model(),
        decreases *old(self),
    {
        match self {
            Widget::Multi(m) => m.handle_post(id, data),
            _ => {},
        }
    }

    /// Handle a key; see `WidgetModel::key_step`.
    pub fn handle_key(&mut self, k: Key, g: &mut Graphics) -> (r: UIResult)
        requires
            old(self).model().wf(),
            old(self).model().drawable(old(g).surface()),
        ensures
            final(self).model() == old(self).model().key_step(k, old(g).surface()).0,
            r@ == old(self).model().key_step(k, old(g).surface()).1,
            final(g).ops@ == old(g).ops@ + old(self).model().key_step(k, old(g).surface()).2,
            final(g).same_surface(old(g)),
            !(r is CLOSE) ==> final(self).model().wf() && final(self).model().drawable(old(g).surface()),
        decreases *old(self),
    {
        match self {
            Widget::Button(b) => {
                proof {
                    assert(old(g).ops@ + Seq::<DrawOp>::empty() =~= old(g).ops@);
                }
                b.handle_key(k)
            },
            Widget::TextArea(t) => {
                proof {
                    assert(old(g).ops@ + Seq::<DrawOp>::empty() =~= old(g).ops@);
                }
                t.handle_key(k, g)
            },
            Widget::Menu(m) => m.handle_key(k, g),
            Widget::TextInput(t) => t.handle_key(k, g),
            Widget::Multi(m) => m.handle_key(k, g),
        }
    }
}

proof fn lemma_longest_step(labels: Seq<Seq<char>>, i: int)
    requires
        0 <= i < labels.len(),
    ensures
        longest(labels.take(i + 1)) == if labels[i].len() > longest(labels.take(i)) {
            labels[i].len() as int
        } else {
            longest(labels.take(i))
        },
        longest(labels.take(i)) >= 0,
{
    let t = labels.take(i + 1);
    assert(t.drop_last() =~= labels.take(i));
    assert(t.last() == labels[i]);
    lemma_longest_nonneg(labels.take(i));
}

proof fn lemma_longest_nonneg(labels: Seq<Seq<char>>)
    ensures
        longest(labels) >= 0,
    decreases labels.len(),
{
    if labels.len() > 0 {
        lemma_longest_nonneg(labels.drop_last());
    }
}

impl Menu {
    /// A menu of one button per choice, all as wide as the longest label
    /// needs, laid out in a row or a column inside the given area (see
    /// `menu_layout`), the first one focused. The menu listens to its own
    /// id and to its buttons' ids.
    pub fn new(
        id: String,
        choices: Vec<String>,
        start_px: (usize, usize),
        dimensions_px: (usize, usize),
        orientation: MenuOrientation,
        g: &Graphics,
    ) -> (r: Menu)
        requires
            menu_fits(strings_view(choices@), start_px, dimensions_px, orientation, g.surface()),
        ensures
            WidgetModel::Menu(r.model()).wf(),
            r.model().id == id@,
            r.model().orientation == orientation,
            r.model().multi.id == id@ + "_multiwidget"@,
            r.model().multi.children == menu_buttons(id@, strings_view(choices@), start_px, dimensions_px, orientation, g.surface()),
            r.model().multi.focused == 0,
            r.model().multi.dims == dimensions_px,
            r.model().subscriptions == seq![id@] + Seq::new(
                choices@.len(),
                |i: int| button_id(id@, choices@[i]@),
            ),
    {
        let ghost labels = strings_view(choices@);
        let ghost gs = g.surface();
        let n = choices.len();
        let mut longest_choice: usize = 0;
        let mut i: usize = 0;
        while i < n
            invariant
                n == choices@.len(),
                labels == strings_view(choices@),
                i <= n,
                forall|j: int| 0 <= j < n ==> #[trigger] labels[j].len() <= usize::MAX,
                longest_choice as int == longest(labels.take(i as int)),
            decreases n - i,
        {
            assert(labels[i as int] == choices@[i as int]@);
            let len = char_count(&choices[i]);
            proof {
                lemma_longest_step(labels, i as int);
            }
            if len > longest_choice {
                longest_choice = len;
            }
            i = i + 1;
        }
        proof {
            assert(labels.take(n as int) =~= labels);
        }
        let ghost size = menu_button_size(labels, gs);
        let ghost layout = menu_layout(n as int, size, start_px, dimensions_px, orientation);
        proof {
            lemma_longest_nonneg(labels);
            assert(size.0 * n <= usize::MAX && size.1 * n <= usize::MAX);
            vstd::arithmetic::mul::lemma_mul_inequality(1, n as int, size.0);
            vstd::arithmetic::mul::lemma_mul_inequality(1, n as int, size.1);
            vstd::arithmetic::mul::lemma_mul_is_commutative(n as int, size.0);
            vstd::arithmetic::mul::lemma_mul_is_commutative(n as int, size.1);
            assert(size.0 <= usize::MAX && size.1 <= usize::MAX);
            assert(longest_choice as int == longest(labels));
            let bh = size.1;
            let nn = n as int;
            assert(3 * nn <= bh * nn) by (nonlinear_arith)
                requires
                    bh >= 3,
                    nn >= 0,
            ;
            assert(n < usize::MAX);
            vstd::arithmetic::mul::lemma_mul_nonnegative(longest_choice as int, MENU_FONT_SCALE * g.font_width);
        }
        let char_width = MENU_FONT_SCALE * g.font_width;
        let char_height = MENU_FONT_SCALE * g.font_height;
        let button_width = longest_choice * char_width + BUTTON_PADDING;
        let button_height = char_height + BUTTON_PADDING;
        let mut x: usize;
        let mut y: usize;
        let x_step: usize;
        let y_step: usize;
        if orientation == MenuOrientation::VERTICAL {
            x_step = 0;
            x = start_px.0 + (dimensions_px.0 - button_width) / 2;
            let area = button_height * n;
            if area >= dimensions_px.1 {
                y = start_px.1;
                y_step = button_height;
            } else {
                let gap = (dimensions_px.1 - area) / (n + 1);
                y = start_px.1 + gap;
                y_step = button_height + gap;
            }
        } else {
            y_step = 0;
            y = start_px.1 + (dimensions_px.1 - button_height) / 2;
            let area = button_width * n;
            if area >= dimensions_px.0 {
                x = start_px.0;
                x_step = button_width;
            } else {
                let gap = (dimensions_px.0 - area) / (n + 1);
                x = start_px.0 + gap;
                x_step = button_width + gap;
            }
        }
        assert(layout == ((x as int, y as int), (x_step as int, y_step as int)));
        let mut subscriptions: Vec<String> = Vec::new();
        subscriptions.push(id.clone());
        let mut buttons: Vec<Widget> = Vec::new();
        let ghost bs = menu_buttons(id@, labels, start_px, dimensions_px, orientation, gs);
        let mut i: usize = 0;
        while i < n
            invariant
                n == choices@.len(),
                labels == strings_view(choices@),
                bs == menu_buttons(id@, labels, start_px, dimensions_px, orientation, gs),
                layout == menu_layout(n as int, size, start_px, dimensions_px, orientation),
                layout == ((x as int, y as int), (x_step as int, y_step as int)),
                size == menu_button_size(labels, gs),
                size == (button_width as int, button_height as int),
                menu_fits(labels, start_px, dimensions_px, orientation, gs),
                i <= n,
                buttons@.len() == i,
                forall|j: int| 0 <= j < i ==> #[trigger] buttons@[j].model() == bs[j],
                strings_view(subscriptions@) == seq![id@] + Seq::new(i as nat, |j: int| button_id(id@, choices@[j]@)),
            decreases n - i,
        {
            proof {
                vstd::arithmetic::mul::lemma_mul_inequality(i as int, n - 1, x_step as int);
                vstd::arithmetic::mul::lemma_mul_inequality(i as int, n - 1, y_step as int);
            }
            let bx = x + i * x_step;
            let by = y + i * y_step;
            let choice_id = id.clone().concat(choices[i].as_str()).concat("_button");
            let ghost prev = subscriptions@;
            subscriptions.push(choice_id.clone());
            let button = Button::new(choice_id, choices[i].clone(), (bx, by), (button_width, button_height), FontSize::P);
            buttons.push(Widget::Button(button));
            proof {
                assert(buttons@[i as int].model() == bs[i as int]);
                assert(strings_view(subscriptions@) =~= seq![id@] + Seq::new((i + 1) as nat, |j: int| button_id(id@, choices@[j]@))) by {
                    assert(strings_view(subscriptions@) =~= strings_view(prev).push(button_id(id@, choices@[i as int]@)));
                }
            }
            i = i + 1;
        }
        proof {
            assert(models(buttons@) =~= bs);
        }
        let multiwidget = MultiWidget::new(id.clone().concat("_multiwidget"), buttons, 0, dimensions_px);
        let r = Menu { id, orientation, multiwidget, subscriptions };
        proof {
            let mm = r.model().multi;
            assert forall|j: int| 0 <= j < mm.children.len() implies #[trigger] mm.children[j] is Button by {
                assert(mm.children[j] == bs[j]);
            }
            assert(r.model().subscriptions =~= seq![id@] + Seq::new(choices@.len(), |j: int| button_id(id@, choices@[j]@)));
        }
        r
    }
}

impl TextInput {
    /// An empty, editable text area over a "save" / "cancel" menu that
    /// takes the bottom `ACTION_MENU_HEIGHT` pixels, the text area focused.
    /// `^W` moves the focus between them. The text input listens to its
    /// menu.
    pub fn new(
        id: String,
        start_px: (usize, usize),
        dimensions_px: (usize, usize),
        x_overflow: XOverflowBehavior,
        g: &Graphics,
    ) -> (r: TextInput)
        requires
            text_input_fits(start_px, dimensions_px, g.surface()),
        ensures
            WidgetModel::TextInput(r.model()).wf(),
            r.model().id == id@,
            r.model().subscriptions == seq![id@ + "_action_menu"@],
            r.model().multi.id == id@ + "_multiwidget"@,
            r.model().multi.focused == 0,
            r.model().multi.dims == dimensions_px,
            r.model().multi.children.len() == 2,
            r.model().multi.children[0] == WidgetModel::TextArea(
                TextAreaView {
                    id: text_area_id(id@),
                    subscriptions: Seq::empty(),
                    lines: split_lines(Seq::empty()),
                    edit: true,
                    start: start_px,
                    dims_px: (dimensions_px.0, (dimensions_px.1 - ACTION_MENU_HEIGHT) as usize),
                    font_size: FontSize::P,
                    overflow: x_overflow,
                    cursor: (0, 0),
                    viewport: (0, 0),
                    cell: (0, 0),
                    grid: (0, 0),
                },
            ),
            r.model().multi.children[1] is Menu,
            r.model().multi.children[1].id() == id@ + "_action_menu"@,
    {
        let area_id = id.clone().concat("_textarea");
        let no_topics: Vec<String> = Vec::new();
        let text_area = TextArea::new(
            area_id,
            no_topics,
            String::new(),
            true,
            start_px,
            (dimensions_px.0, dimensions_px.1 - ACTION_MENU_HEIGHT),
            FontSize::P,
            x_overflow,
        );
        let menu_id = id.clone().concat("_action_menu");
        let mut labels: Vec<String> = Vec::new();
        labels.push(String::from_str("save"));
        labels.push(String::from_str("cancel"));
        proof {
            assert(strings_view(labels@) =~= action_labels());
        }
        let menu = Menu::new(
            menu_id.clone(),
            labels,
            (start_px.0, start_px.1 + dimensions_px.1 - ACTION_MENU_HEIGHT),
            (dimensions_px.0, ACTION_MENU_HEIGHT),
            MenuOrientation::HORIZONTAL,
            g,
        );
        let mut parts: Vec<Widget> = Vec::new();
        parts.push(Widget::TextArea(text_area));
        parts.push(Widget::Menu(menu));
        let multiwidget = MultiWidget::new(id.clone().concat("_multiwidget"), parts, 0, dimensions_px);
        let mut subscriptions: Vec<String> = Vec::new();
        subscriptions.push(menu_id);
        let r = TextInput { id, multiwidget, subscriptions };
        proof {
            assert(strings_view(r.subscriptions@) =~= seq![id@ + "_action_menu"@]);
            let mm = r.model().multi;
            assert(mm.children[0] == parts@[0].model());
            assert(mm.children[1] == parts@[1].model());
            assert(strings_view(Seq::<String>::empty()) =~= Seq::<Seq<char>>::empty());
            assert(mm.shape_ok());
            assert(mm.children[0] is TextArea);
            assert(mm.children[0].id() == text_area_id(id@));
            assert(mm.children[0].wf());
            assert(mm.children[1].wf());
        }
        r
    }
}

/// The container after moving the focus forward `k` times.
pub open spec fn focus_after(m: MultiModel, g: Surface, k: nat) -> MultiModel
    decreases k,
{
    if k == 0 {
        m
    } else {
        focus_next_step(focus_after(m, g, (k - 1) as nat), g).0
    }
}

proof fn lemma_focus_after(m: MultiModel, g: Surface, k: nat)
    requires
        2 <= m.children.len() <= usize::MAX,
        m.focused < m.children.len(),
    ensures
        focus_after(m, g, k).children.len() == m.children.len(),
        focus_after(m, g, k).focused == (m.focused + k) % (m.children.len() as int),
    decreases k,
{
    let n = m.children.len() as int;
    if k == 0 {
        vstd::arithmetic::div_mod::lemma_small_mod(m.focused as nat, n as nat);
        assert(focus_after(m, g, k) == m);
        assert((m.focused + k) % n == m.focused as int);
    } else {
        lemma_focus_after(m, g, (k - 1) as nat);
        let prev = focus_after(m, g, (k - 1) as nat);
        vstd::arithmetic::div_mod::lemma_add_mod_noop(m.focused + k - 1, 1, n);
        vstd::arithmetic::div_mod::lemma_small_mod(1, n as nat);
        vstd::arithmetic::div_mod::lemma_mod_pos_bound(m.focused + k - 1, n);
        vstd::arithmetic::div_mod::lemma_mod_pos_bound(m.focused + k, n);
        assert(prev.focused as int == (m.focused + k - 1) % n);
        assert(((prev.focused as int) + 1) % n == (m.focused + k) % n);
        let next = focus_next_step(prev, g).0;
        assert(next == refocus_step(prev, prev.next_focus(), g).0);
        assert(next.focused == prev.next_focus());
        assert(next.children.len() == prev.children.len());
        assert(focus_after(m, g, k) == next);
        assert(next.focused as int == (m.focused + k) % n);
    }
}

/// Moving the focus forward once per child brings it back to where it
/// started, and no fewer moves do: focus rotation is a cycle as long as
/// the number of children.
pub proof fn lemma_focus_cycle(m: MultiModel, g: Surface)
    requires
        2 <= m.children.len() <= usize::MAX,
        m.focused < m.children.len(),
    ensures
        focus_after(m, g, m.children.len() as nat).focused == m.focused,
        forall|k: nat| 0 < k < m.children.len() ==> #[trigger] focus_after(m, g, k).focused != m.focused,
{
    let n = m.children.len() as int;
    let f = m.focused as int;
    lemma_focus_after(m, g, n as nat);
    vstd::arithmetic::div_mod::lemma_mod_sub_multiples_vanish(f + n, n);
    vstd::arithmetic::div_mod::lemma_small_mod(f as nat, n as nat);
    assert forall|k: nat| 0 < k < m.children.len() implies #[trigger] focus_after(m, g, k).focused != m.focused by {
        lemma_focus_after(m, g, k);
        if f + k < n {
            vstd::arithmetic::div_mod::lemma_small_mod((f + k) as nat, n as nat);
        } else {
            vstd::arithmetic::div_mod::lemma_mod_sub_multiples_vanish(f + k, n);
            vstd::arithmetic::div_mod::lemma_small_mod((f + k - n) as nat, n as nat);
        }
    }
}

impl WidgetModel {
    /// Every scrolling text area in the widget has a grid at least twice
    /// the scroll-off margin in each direction on `g`.
    pub open spec fn margins_fit(self, g: Surface) -> bool
        decreases self,
    {
        match self {
            WidgetModel::Button(_) => true,
            WidgetModel::TextArea(t) => t.overflow == XOverflowBehavior::Scroll ==> t.sized(g).grid.0 >= 2
                * SCROLLOFF && t.sized(g).grid.1 >= 2 * SCROLLOFF,
            WidgetModel::Menu(m) => all_margins_fit(m.multi.children, g),
            WidgetModel::TextInput(t) => all_margins_fit(t.multi.children, g),
            WidgetModel::Multi(m) => all_margins_fit(m.children, g),
        }
    }
}

/// Every widget of `ws` satisfies `margins_fit`.
pub open spec fn all_margins_fit(ws: Seq<WidgetModel>, g: Surface) -> bool
    decreases ws,
{
    if ws.len() == 0 {
        true
    } else {
        all_margins_fit(ws.drop_last(), g) && ws.last().margins_fit(g)
    }
}

proof fn lemma_all_margins_fit(ws: Seq<WidgetModel>, g: Surface)
    ensures
        all_margins_fit(ws, g) <==> forall|i: int| 0 <= i < ws.len() ==> #[trigger] ws[i].margins_fit(g),
    decreases ws.len(),
{
    if ws.len() > 0 {
        let d = ws.drop_last();
        let k = ws.len() - 1;
        lemma_all_margins_fit(d, g);
        assert(ws.last() == ws[k]);
        if forall|i: int| 0 <= i < ws.len() ==> #[trigger] ws[i].margins_fit(g) {
            assert forall|i: int| 0 <= i < d.len() implies #[trigger] d[i].margins_fit(g) by {
                assert(d[i] == ws[i]);
            }
            assert(ws[k].margins_fit(g));
        }
        if all_margins_fit(ws, g) {
            assert forall|i: int| 0 <= i < ws.len() implies #[trigger] ws[i].margins_fit(g) by {
                if i < k {
                    assert(d[i] == ws[i]);
                    assert(d[i].margins_fit(g));
                }
            }
        }
    }
}

proof fn lemma_unfocused_renders_eq(a: Seq<WidgetModel>, b: Seq<WidgetModel>, f: int, g: Surface, n: int)
    requires
        a.len() == b.len(),
        0 <= n <= a.len(),
        forall|i: int| 0 <= i < a.len() ==> #[trigger] a[i].render(g, false) == b[i].render(g, false),
    ensures
        unfocused_renders(a, f, g, n) == unfocused_renders(b, f, g, n),
    decreases n,
{
    if n > 0 {
        lemma_unfocused_renders_eq(a, b, f, g, n - 1);
        assert(a[n - 1].render(g, false) == b[n - 1].render(g, false));
        assert(child_piece(a, f, g, n - 1) == child_piece(b, f, g, n - 1));
    }
}

/// Drawing a widget twice shows what drawing it once shows: the second
/// draw leaves the widget as the first left it and records the same
/// commands. Every scrolling text area in it needs a grid at least twice
/// the scroll-off margin in each direction; on a narrower one its viewport
/// would swing between two places.
pub proof fn lemma_widget_draw_idempotent(w: WidgetModel, g: Surface)
    requires
        w.wf(),
        w.drawable(g),
        w.margins_fit(g),
    ensures
        w.drawn(g).drawn(g) == w.drawn(g),
        forall|focused: bool| #[trigger] w.drawn(g).render(g, focused) == w.render(g, focused),
    decreases w,
{
    match w {
        WidgetModel::Button(_) => {},
        WidgetModel::TextArea(t) => {
            assert forall|focused: bool| #[trigger] w.drawn(g).render(g, focused) == w.render(g, focused) by {
                lemma_draw_idempotent(t, g, focused);
            }
            lemma_draw_idempotent(t, g, true);
        },
        WidgetModel::Menu(m) => {
            assert forall|i: int| 0 <= i < m.multi.children.len() implies #[trigger] m.multi.children[i].wf() by {
                assert(m.multi.children[i] is Button);
            }
            lemma_all_wf(m.multi.children);
            assert(children_drawable(m.multi, g));
            lemma_children_draw_idempotent(m.multi.children, g);
            let d = drawn_all(m.multi.children, g);
            assert(drawn_all(d, g) =~= d);
            assert forall|focused: bool| #[trigger] w.drawn(g).render(g, focused) == w.render(g, focused) by {
                lemma_unfocused_renders_eq(d, m.multi.children, m.multi.focused as int, g, d.len() as int);
            }
        },
        WidgetModel::TextInput(t) => {
            assert forall|i: int| 0 <= i < t.multi.children.len() implies #[trigger] t.multi.children[i].wf() by {
                if i == 1 {
                }
            }
            lemma_all_wf(t.multi.children);
            assert(children_drawable(t.multi, g));
            lemma_children_draw_idempotent(t.multi.children, g);
            let d = drawn_all(t.multi.children, g);
            assert forall|i: int| 0 <= i < d.len() implies #[trigger] drawn_all(d, g)[i] == d[i] by {
                assert(drawn_all(d, g)[i] == d[i].drawn(g));
                assert(d[i].drawn(g) == d[i]);
            }
            assert(drawn_all(d, g) =~= d);
            assert forall|focused: bool| #[trigger] w.drawn(g).render(g, focused) == w.render(g, focused) by {
                lemma_unfocused_renders_eq(d, t.multi.children, t.multi.focused as int, g, d.len() as int);
                let f = t.multi.focused as int;
                assert(d[f].render(g, focused) == t.multi.children[f].render(g, focused));
                assert(w.drawn(g) == WidgetModel::TextInput(TextInputModel { multi: MultiModel { children: d, ..t.multi }, ..t }));
            }
        },
        WidgetModel::Multi(m) => {
            assert(children_wf(m));
            assert(children_drawable(m, g));
            lemma_children_draw_idempotent(m.children, g);
            let d = drawn_all(m.children, g);
            assert forall|i: int| 0 <= i < d.len() implies #[trigger] drawn_all(d, g)[i] == d[i] by {
                assert(drawn_all(d, g)[i] == d[i].drawn(g));
                assert(d[i].drawn(g) == d[i]);
            }
            assert(drawn_all(d, g) =~= d);
            assert forall|focused: bool| #[trigger] w.drawn(g).render(g, focused) == w.render(g, focused) by {
                lemma_unfocused_renders_eq(d, m.children, m.focused as int, g, d.len() as int);
                let f = m.focused as int;
                assert(d[f].render(g, focused) == m.children[f].render(g, focused));
                assert(w.drawn(g) == WidgetModel::Multi(MultiModel { children: d, ..m }));
            }
        },
    }
}

proof fn lemma_children_draw_idempotent(ws: Seq<WidgetModel>, g: Surface)
    requires
        all_wf(ws),
        all_drawable(ws, g),
        all_margins_fit(ws, g),
    ensures
        forall|i: int| 0 <= i < ws.len() ==> #[trigger] drawn_all(ws, g)[i].drawn(g) == drawn_all(ws, g)[i],
        forall|i: int, focused: bool| 0 <= i < ws.len() ==> #[trigger] drawn_all(ws, g)[i].render(g, focused) == ws[i].render(g, focused),
    decreases ws,
{
    lemma_all_wf(ws);
    lemma_all_drawable(ws, g);
    lemma_all_margins_fit(ws, g);
    assert forall|i: int| 0 <= i < ws.len() implies #[trigger] drawn_all(ws, g)[i].drawn(g) == drawn_all(ws, g)[i] by {
        lemma_widget_draw_idempotent(ws[i], g);
    }
    assert forall|i: int, focused: bool| 0 <= i < ws.len() implies #[trigger] drawn_all(ws, g)[i].render(g, focused) == ws[i].render(g, focused) by {
        lemma_widget_draw_idempotent(ws[i], g);
    }
}

} // verus!
