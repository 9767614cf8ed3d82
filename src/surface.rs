use vstd::prelude::*;

verus! {

/// The resolved appearance of a button for one frame.
#[derive(Debug)]
pub struct ButtonProps {
    pub x: i64,
    pub y: i64,
    pub w: i64,
    pub h: i64,
    pub label: String,
}

/// The mathematical model of `ButtonProps`.
pub struct ButtonLook {
    pub x: i64,
    pub y: i64,
    pub w: i64,
    pub h: i64,
    pub label: Seq<char>,
}

impl View for ButtonProps {
    type V = ButtonLook;

    open spec fn view(&self) -> ButtonLook {
        ButtonLook { x: self.x, y: self.y, w: self.w, h: self.h, label: self.label@ }
    }
}

/// One widget applied to the surface during a frame.
#[derive(Debug)]
pub enum Widget {
    /// A clickable rectangle with a label.
    Button { id: u64, props: ButtonProps },
}

/// The mathematical model of `Widget`.
pub enum WidgetModel {
    Button(u64, ButtonLook),
}

impl View for Widget {
    type V = WidgetModel;

    open spec fn view(&self) -> WidgetModel {
        match self {
            Widget::Button { id, props } => WidgetModel::Button(*id, props@),
        }
    }
}

/// The host's drawing surface as the tree sees it: an allocator of widget
/// identifiers and the widgets applied so far, in order.
#[derive(Debug)]
pub struct Surface {
    /// The identifier that the allocator hands out next.
    pub next_id: u64,
    /// The widgets applied, oldest first.
    pub applied: Vec<Widget>,
}

impl Surface {
    pub open spec fn log(&self) -> Seq<WidgetModel> {
        self.applied@.map_values(|w: Widget| w@)
    }

    /// A surface whose allocator starts at `first_id`, with nothing applied.
    pub fn new(first_id: u64) -> (r: Surface)
        ensures
            r.next_id == first_id,
            r.log() == Seq::<WidgetModel>::empty(),
    {
        let r = Surface { next_id: first_id, applied: Vec::new() };
        assert(r.log() =~= Seq::<WidgetModel>::empty());
        r
    }

    /// Hands out a fresh identifier.
    pub fn next_identifier(&mut self) -> (r: u64)
        requires
            old(self).next_id < u64::MAX,
        ensures
            r == old(self).next_id,
            final(self).next_id == old(self).next_id + 1,
            final(self).applied@ == old(self).applied@,
    {
        let r = self.next_id;
        self.next_id = self.next_id + 1;
        r
    }

    /// Records a widget as applied this frame.
    pub fn apply(&mut self, w: Widget)
        ensures
            final(self).next_id == old(self).next_id,
            final(self).log() == old(self).log().push(w@),
    {
        self.applied.push(w);
        assert(self.log() =~= old(self).log().push(w@));
    }

    /// Removes and returns what was applied, leaving the allocator as it is.
    pub fn take_applied(&mut self) -> (r: Vec<Widget>)
        ensures
            r@ == old(self).applied@,
            final(self).next_id == old(self).next_id,
            final(self).applied@.len() == 0,
    {
        let mut out: Vec<Widget> = Vec::new();
        std::mem::swap(&mut out, &mut self.applied);
        out
    }
}

} // verus!
