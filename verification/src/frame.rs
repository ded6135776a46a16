//! Recording of an evaluated frame as contours and ordered paint commands.

use vstd::prelude::*;
use crate::arena::Point;

verus! {

/// Fill rule of a paint.
#[derive(Clone, Copy, Debug, PartialEq, Eq, Structural)]
pub enum Rule {
    /// Nonzero winding.
    NonZero,
    /// Even-odd winding.
    EvenOdd,
}

/// A solid paint: fill rule and premultiplied `0xAABBGGRR` color.
#[derive(Clone, Copy, Debug, PartialEq, Eq, Structural)]
pub struct SolidPaint {
    /// Fill rule.
    pub rule: Rule,
    /// Premultiplied color.
    pub rgba: u32,
}

/// Geometry of a gradient; every value is an IEEE-754 single-precision bit
/// pattern.
#[derive(Clone, Copy, Debug, PartialEq, Eq, Structural)]
pub enum GradientKind {
    /// Linear gradient from `(sx, sy)` along `(dx, dy)`.
    Linear { sx: u32, sy: u32, dx: u32, dy: u32, inv_len_sq: u32 },
    /// Radial gradient centered at `(sx, sy)`.
    Radial { sx: u32, sy: u32, inv_r: u32 },
    /// Two-point conical gradient with focal point `(fx, fy)`.
    Focal { fx: u32, fy: u32, dx: u32, dy: u32, a: u32, r: u32 },
}

/// Inverse paint transform of a gradient, as single-precision bit patterns.
#[derive(Clone, Copy, Debug, PartialEq, Eq, Structural)]
pub struct GradientTransform {
    /// Row 0, column 0.
    pub a: u32,
    /// Row 1, column 0.
    pub b: u32,
    /// Row 0, column 1.
    pub c: u32,
    /// Row 1, column 1.
    pub d: u32,
    /// X translation.
    pub tx: u32,
    /// Y translation.
    pub ty: u32,
}

/// A gradient paint with its 1024-entry color lookup table.
#[derive(Clone, Debug)]
pub struct GradientPaint {
    /// Fill rule.
    pub rule: Rule,
    /// Premultiplied color lookup table.
    pub lut: [u32; 1024],
    /// Inverse paint transform.
    pub transform: GradientTransform,
    /// Gradient geometry.
    pub kind: GradientKind,
}

/// A paint handed to `draw`.
#[derive(Clone, Debug)]
pub enum Paint {
    /// Solid color.
    Solid(SolidPaint),
    /// Gradient.
    Gradient(GradientPaint),
}

/// How a layer is composited when it ends.
#[derive(Clone, Copy, Debug, PartialEq, Eq, Structural)]
pub enum Composite {
    /// Source-over with a layer opacity.
    Over { opacity: u8 },
    /// Track matte: the two most recent layers are the matte source and target.
    Matte { kind: u8, opacity: u8, source_opacity: u8 },
}

/// One evaluated contour.
#[derive(Clone, Debug)]
pub struct RecordedContour {
    /// Points of the contour.
    pub points: Vec<Point>,
    /// Whether the contour is closed.
    pub closed: bool,
}

/// A recorded paint command.
#[derive(Clone, Debug)]
pub enum RecordedOp {
    /// Solid fill of the command's contours.
    Solid(SolidPaint),
    /// Gradient fill of the command's contours.
    Gradient(GradientPaint),
    /// Start of an isolated layer.
    BeginLayer,
    /// End of an isolated layer.
    EndLayer { opacity: u8 },
    /// Start of a matte source layer.
    BeginMatte,
    /// Start of a matte target layer.
    BeginMatteTarget,
    /// End of a matte pair.
    EndMatte { kind: u8, opacity: u8, source_opacity: u8 },
    /// A mask applied with the command's contours.
    Mask { mode: u8, inverted: bool, opacity: u8, first: bool, last: bool },
}

/// A command and the contours `start..end` it uses.
#[derive(Clone, Debug)]
pub struct RecordedCommand {
    /// The operation.
    pub op: RecordedOp,
    /// First contour.
    pub start: usize,
    /// One past the last contour.
    pub end: usize,
}

/// Contours and commands of one evaluated frame.
#[derive(Clone, Debug)]
pub struct EvaluatedFrame {
    /// All contours, in drawing order.
    pub contours: Vec<RecordedContour>,
    /// Commands, in drawing order.
    pub commands: Vec<RecordedCommand>,
}

impl EvaluatedFrame {
    /// An empty frame.
    pub fn new() -> (f: Self)
        ensures
            f.contours@.len() == 0,
            f.commands@.len() == 0,
    {
        EvaluatedFrame { contours: Vec::new(), commands: Vec::new() }
    }

    /// Every command's contour span lies inside the recorded contours.
    pub open spec fn spans_wf(&self) -> bool {
        forall|i: int|
            0 <= i < self.commands@.len() ==> #[trigger] self.commands@[i].start <= self.commands@[i].end
                <= self.contours@.len()
    }
}

/// Records the walk of a frame.
pub struct FrameRecorder {
    /// The frame recorded so far.
    pub frame: EvaluatedFrame,
    /// Indices of the `BeginLayer` commands of the open layers, innermost last.
    pub saves: Vec<usize>,
}

impl FrameRecorder {
    /// The recorder's invariant: spans are in range, and the open layers are
    /// `BeginLayer` commands in increasing order.
    pub open spec fn wf(&self) -> bool {
        &&& self.frame.spans_wf()
        &&& forall|k: int|
            0 <= k < self.saves@.len() ==> #[trigger] self.saves@[k] < self.frame.commands@.len()
                && self.frame.commands@[self.saves@[k] as int].op is BeginLayer
        &&& forall|k: int, l: int|
            #![trigger self.saves@[k], self.saves@[l]]
            0 <= k < l < self.saves@.len() ==> self.saves@[k] < self.saves@[l]
    }

    /// An empty recorder.
    pub fn new() -> (r: Self)
        ensures
            r.wf(),
            r.frame.contours@.len() == 0,
            r.frame.commands@.len() == 0,
            r.saves@.len() == 0,
    {
        FrameRecorder { frame: EvaluatedFrame::new(), saves: Vec::new() }
    }

    /// Forgets the recorded frame and the open layers.
    pub fn reset(&mut self)
        ensures
            final(self).wf(),
            final(self).frame.contours@.len() == 0,
            final(self).frame.commands@.len() == 0,
            final(self).saves@.len() == 0,
    {
        self.frame = EvaluatedFrame::new();
        self.saves = Vec::new();
    }

    /// Opens an isolated layer.
    pub fn save_layer(&mut self)
        requires
            old(self).wf(),
        ensures
            final(self).wf(),
            final(self).frame.contours@ == old(self).frame.contours@,
            final(self).frame.commands@ == old(self).frame.commands@.push(
                RecordedCommand {
                    op: RecordedOp::BeginLayer,
                    start: old(self).frame.contours@.len() as usize,
                    end: old(self).frame.contours@.len() as usize,
                },
            ),
            final(self).saves@ == old(self).saves@.push(old(self).frame.commands@.len() as usize),
    {
        let at = self.frame.contours.len();
        let index = self.frame.commands.len();
        self.frame.commands.push(RecordedCommand { op: RecordedOp::BeginLayer, start: at, end: at });
        self.saves.push(index);
    }

    fn append_contours(&mut self, contours: Vec<RecordedContour>)
        requires
            old(self).wf(),
        ensures
            final(self).wf(),
            final(self).frame.contours@ == old(self).frame.contours@ + contours@,
            final(self).frame.commands@ == old(self).frame.commands@,
            final(self).saves@ == old(self).saves@,
    {
        let mut contours = contours;
        self.frame.contours.append(&mut contours);
    }

    /// Records a fill of `contours` with `paint`.
    pub fn draw(&mut self, contours: Vec<RecordedContour>, paint: Paint)
        requires
            old(self).wf(),
        ensures
            final(self).wf(),
            final(self).frame.contours@ == old(self).frame.contours@ + contours@,
            final(self).saves@ == old(self).saves@,
            final(self).frame.commands@ == old(self).frame.commands@.push(
                RecordedCommand {
                    op: match paint {
                        Paint::Solid(s) => RecordedOp::Solid(s),
                        Paint::Gradient(g) => RecordedOp::Gradient(g),
                    },
                    start: old(self).frame.contours@.len() as usize,
                    end: (old(self).frame.contours@.len() + contours@.len()) as usize,
                },
            ),
    {
        let start = self.frame.contours.len();
        self.append_contours(contours);
        let op = match paint {
            Paint::Solid(solid) => RecordedOp::Solid(solid),
            Paint::Gradient(gradient) => RecordedOp::Gradient(gradient),
        };
        let end = self.frame.contours.len();
        self.frame.commands.push(RecordedCommand { op, start, end });
    }

    /// Records a mask applied with `contours`.
    pub fn apply_mask(&mut self, contours: Vec<RecordedContour>, mode: u8, inverted: bool, opacity: u8, first: bool, last: bool)
        requires
            old(self).wf(),
        ensures
            final(self).wf(),
            final(self).frame.contours@ == old(self).frame.contours@ + contours@,
            final(self).saves@ == old(self).saves@,
            final(self).frame.commands@ == old(self).frame.commands@.push(
                RecordedCommand {
                    op: RecordedOp::Mask { mode, inverted, opacity, first, last },
                    start: old(self).frame.contours@.len() as usize,
                    end: (old(self).frame.contours@.len() + contours@.len()) as usize,
                },
            ),
    {
        let start = self.frame.contours.len();
        self.append_contours(contours);
        let end = self.frame.contours.len();
        self.frame.commands.push(RecordedCommand { op: RecordedOp::Mask { mode, inverted, opacity, first, last }, start, end });
    }
}

/// `commands` with the command at `index`, if any, given operation `op`.
pub open spec fn retag(commands: Seq<RecordedCommand>, index: Option<usize>, op: RecordedOp) -> Seq<RecordedCommand> {
    match index {
        Some(i) => if i < commands.len() {
            commands.update(i as int, RecordedCommand { op, ..commands[i as int] })
        } else {
            commands
        },
        None => commands,
    }
}

/// The innermost open layer, if any.
pub open spec fn top(saves: Seq<usize>) -> Option<usize> {
    if saves.len() > 0 { Some(saves.last()) } else { None }
}

/// `saves` with the innermost open layer closed.
pub open spec fn pop(saves: Seq<usize>) -> Seq<usize> {
    if saves.len() > 0 { saves.drop_last() } else { saves }
}

/// The command list and open layers after ending a layer with `composite`
/// when `at` contours are recorded: a source-over end closes the innermost
/// layer; a matte end closes the two innermost, marking the outer one as the
/// matte source and the inner one as the matte target.
pub open spec fn ended_layer(
    commands: Seq<RecordedCommand>,
    saves: Seq<usize>,
    at: usize,
    composite: Composite,
    commands1: Seq<RecordedCommand>,
    saves1: Seq<usize>,
) -> bool {
    match composite {
        Composite::Over { opacity } => {
            &&& saves1 == pop(saves)
            &&& commands1 == commands.push(RecordedCommand { op: RecordedOp::EndLayer { opacity }, start: at, end: at })
        },
        Composite::Matte { kind, opacity, source_opacity } => {
            let target = top(saves);
            let source = top(pop(saves));
            &&& saves1 == pop(pop(saves))
            &&& commands1 == retag(retag(commands, source, RecordedOp::BeginMatte), target, RecordedOp::BeginMatteTarget).push(
                RecordedCommand { op: RecordedOp::EndMatte { kind, opacity, source_opacity }, start: at, end: at },
            )
        },
    }
}

impl FrameRecorder {
    /// Closes the innermost layer (two layers for a matte).
    pub fn end_layer(&mut self, composite: Composite)
        requires
            old(self).wf(),
        ensures
            final(self).wf(),
            final(self).frame.contours@ == old(self).frame.contours@,
            ended_layer(
                old(self).frame.commands@,
                old(self).saves@,
                old(self).frame.contours@.len() as usize,
                composite,
                final(self).frame.commands@,
                final(self).saves@,
            ),
    {
        match composite {
            Composite::Over { opacity } => {
                let _ = self.saves.pop();
                let at = self.frame.contours.len();
                self.frame.commands.push(RecordedCommand { op: RecordedOp::EndLayer { opacity }, start: at, end: at });
            },
            Composite::Matte { kind, opacity, source_opacity } => {
                let target = self.saves.pop();
                let source = self.saves.pop();
                let ghost c0 = self.frame.commands@;
                if let Some(index) = source {
                    if index < self.frame.commands.len() {
                        let start = self.frame.commands[index].start;
                        let end = self.frame.commands[index].end;
                        self.frame.commands.set(index, RecordedCommand { op: RecordedOp::BeginMatte, start, end });
                    }
                }
                assert(self.frame.commands@ =~= retag(c0, source, RecordedOp::BeginMatte));
                let ghost c1 = self.frame.commands@;
                if let Some(index) = target {
                    if index < self.frame.commands.len() {
                        let start = self.frame.commands[index].start;
                        let end = self.frame.commands[index].end;
                        self.frame.commands.set(index, RecordedCommand { op: RecordedOp::BeginMatteTarget, start, end });
                    }
                }
                assert(self.frame.commands@ =~= retag(c1, target, RecordedOp::BeginMatteTarget));
                let at = self.frame.contours.len();
                self.frame.commands.push(RecordedCommand { op: RecordedOp::EndMatte { kind, opacity, source_opacity }, start: at, end: at });
            },
        }
    }
}

/// Saving a layer and ending it source-over leaves the open layers as they
/// were and appends a matched `BeginLayer`/`EndLayer` pair.
pub proof fn law_layer_round_trip(
    commands: Seq<RecordedCommand>,
    saves: Seq<usize>,
    at: usize,
    opacity: u8,
    commands2: Seq<RecordedCommand>,
    saves2: Seq<usize>,
)
    requires
        ended_layer(
            commands.push(RecordedCommand { op: RecordedOp::BeginLayer, start: at, end: at }),
            saves.push(commands.len() as usize),
            at,
            Composite::Over { opacity },
            commands2,
            saves2,
        ),
    ensures
        saves2 == saves,
        commands2 == commands + seq![
            RecordedCommand { op: RecordedOp::BeginLayer, start: at, end: at },
            RecordedCommand { op: RecordedOp::EndLayer { opacity }, start: at, end: at },
        ],
{
    assert(saves.push(commands.len() as usize).drop_last() =~= saves);
    assert(commands2 =~= commands + seq![
        RecordedCommand { op: RecordedOp::BeginLayer, start: at, end: at },
        RecordedCommand { op: RecordedOp::EndLayer { opacity }, start: at, end: at },
    ]);
}

/// Saving two layers and ending them as a matte leaves the open layers as
/// they were and turns the outer save into the matte source and the inner one
/// into the matte target.
pub proof fn law_matte_round_trip(
    commands: Seq<RecordedCommand>,
    saves: Seq<usize>,
    at: usize,
    kind: u8,
    opacity: u8,
    source_opacity: u8,
    commands2: Seq<RecordedCommand>,
    saves2: Seq<usize>,
)
    requires
        commands.len() + 2 <= usize::MAX,
        ended_layer(
            commands.push(RecordedCommand { op: RecordedOp::BeginLayer, start: at, end: at }).push(
                RecordedCommand { op: RecordedOp::BeginLayer, start: at, end: at },
            ),
            saves.push(commands.len() as usize).push((commands.len() + 1) as usize),
            at,
            Composite::Matte { kind, opacity, source_opacity },
            commands2,
            saves2,
        ),
    ensures
        saves2 == saves,
        commands2 == commands + seq![
            RecordedCommand { op: RecordedOp::BeginMatte, start: at, end: at },
            RecordedCommand { op: RecordedOp::BeginMatteTarget, start: at, end: at },
            RecordedCommand { op: RecordedOp::EndMatte { kind, opacity, source_opacity }, start: at, end: at },
        ],
{
    let s2 = saves.push(commands.len() as usize).push((commands.len() + 1) as usize);
    assert(s2.drop_last() =~= saves.push(commands.len() as usize));
    assert(saves.push(commands.len() as usize).drop_last() =~= saves);
    assert(commands2 =~= commands + seq![
        RecordedCommand { op: RecordedOp::BeginMatte, start: at, end: at },
        RecordedCommand { op: RecordedOp::BeginMatteTarget, start: at, end: at },
        RecordedCommand { op: RecordedOp::EndMatte { kind, opacity, source_opacity }, start: at, end: at },
    ]);
}

} // verus!
