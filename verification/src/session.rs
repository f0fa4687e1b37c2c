//! A drawing session: the subject polygon is drawn, then the clip polygon,
//! then the two are clipped.

use vstd::prelude::*;
use crate::builder::{
    EditError, PolygonBuilder, add_point_result, after_add_point, after_close_path, after_finish,
    close_path_result, finish_result, is_closed, is_finished, with_closing_point,
};
use crate::clip::{clip_spec, clipping};
use crate::orientation::{Orientation, orientation, orientation_spec};
use crate::point::{Point, Polygon, contours_in_range, contours_of, points_in_range};
use crate::table::contours_nonempty;
use crate::walk::ClipResult;

verus! {

/// What the session is at.
#[derive(Clone, Copy, Debug, PartialEq, Eq, Structural)]
pub enum Status {
    /// The subject polygon is being drawn.
    Main,
    /// The clip polygon is being drawn.
    Clipper,
    /// Both polygons are finished and the result is shown.
    Result,
}

/// What the user asks for.
#[derive(Clone, Copy, Debug, PartialEq, Eq, Structural)]
pub enum Command {
    /// Add a point to the polygon being drawn.
    AddPoint(Point),
    /// Close the contour being drawn.
    ClosePath,
    /// Finish the polygon being drawn, or start again once the result is
    /// shown.
    Finish,
    /// Empty the polygon being drawn, or start again once the result is
    /// shown.
    Clear,
}

/// What the user is to be told after a command.
#[derive(Clone, Copy, Debug, PartialEq, Eq, Structural)]
pub enum Notice {
    /// The command was carried out; the prompt of the status applies.
    Prompt,
    /// The contour was closed, and it turns this way.
    Closed(Orientation),
    /// The command was refused.
    Refused(EditError),
    /// The polygon being drawn was emptied.
    Cleared,
    /// The command does not apply and nothing has changed.
    Ignored,
}

/// A drawing session.
#[derive(Clone, Debug, PartialEq, Eq)]
pub struct Session {
    pub status: Status,
    /// The subject polygon while it is drawn.
    pub subject_builder: PolygonBuilder,
    /// The clip polygon while it is drawn.
    pub clip_builder: PolygonBuilder,
    /// The subject polygon once finished.
    pub subject: Polygon,
    /// The clip polygon once finished.
    pub clip: Polygon,
}

/// A session as sequences of points.
pub struct SessionView {
    pub status: Status,
    pub subject_builder: Seq<Seq<Point>>,
    pub clip_builder: Seq<Seq<Point>>,
    pub subject: Seq<Seq<Point>>,
    pub clip: Seq<Seq<Point>>,
}

impl View for Session {
    type V = SessionView;

    open spec fn view(&self) -> SessionView {
        SessionView {
            status: self.status,
            subject_builder: self.subject_builder@,
            clip_builder: self.clip_builder@,
            subject: contours_of(self.subject@),
            clip: contours_of(self.clip@),
        }
    }
}

/// A session in which nothing has been drawn.
pub open spec fn new_session() -> SessionView {
    SessionView {
        status: Status::Main,
        subject_builder: seq![Seq::empty()],
        clip_builder: seq![Seq::empty()],
        subject: Seq::empty(),
        clip: Seq::empty(),
    }
}

/// What a command does to the polygon being drawn: the polygon as it is
/// left, the finished polygon where the command finished it, and what the
/// user is told.
pub open spec fn edit_spec(p: Seq<Seq<Point>>, command: Command) -> (
    Seq<Seq<Point>>,
    Option<Seq<Seq<Point>>>,
    Notice,
) {
    match command {
        Command::AddPoint(pt) => (
            after_add_point(p, pt),
            None,
            match add_point_result(p, pt) {
                Ok(_) => Notice::Prompt,
                Err(e) => Notice::Refused(e),
            },
        ),
        Command::ClosePath => (
            after_close_path(p),
            None,
            match close_path_result(p) {
                Ok(_) => Notice::Closed(orientation_spec(with_closing_point(p).last())),
                Err(e) => Notice::Refused(e),
            },
        ),
        Command::Finish => (
            after_finish(p),
            match finish_result(p) {
                Ok(done) => Some(done),
                Err(_) => None,
            },
            match finish_result(p) {
                Ok(_) => Notice::Prompt,
                Err(e) => Notice::Refused(e),
            },
        ),
        Command::Clear => (seq![Seq::empty()], None, Notice::Cleared),
    }
}

/// The session after a command, and what the user is told.
///
/// While a polygon is drawn the command edits it, and finishing it moves the
/// session on. Once the result is shown, points and closing are ignored, and
/// finishing or clearing starts a new session.
pub open spec fn step_spec(s: SessionView, command: Command) -> (SessionView, Notice) {
    match s.status {
        Status::Main => {
            let (left, done, notice) = edit_spec(s.subject_builder, command);
            match done {
                Some(polygon) => (
                    SessionView {
                        status: Status::Clipper,
                        subject_builder: left,
                        subject: polygon,
                        ..s
                    },
                    notice,
                ),
                None => (SessionView { subject_builder: left, ..s }, notice),
            }
        },
        Status::Clipper => {
            let (left, done, notice) = edit_spec(s.clip_builder, command);
            match done {
                Some(polygon) => (
                    SessionView {
                        status: Status::Result,
                        clip_builder: left,
                        clip: polygon,
                        ..s
                    },
                    notice,
                ),
                None => (SessionView { clip_builder: left, ..s }, notice),
            }
        },
        Status::Result => match command {
            Command::AddPoint(_) => (s, Notice::Ignored),
            Command::ClosePath => (s, Notice::Ignored),
            Command::Finish => (new_session(), Notice::Prompt),
            Command::Clear => (new_session(), Notice::Prompt),
        },
    }
}

/// Carries out a command on the polygon being drawn.
fn edit(builder: &mut PolygonBuilder, command: Command) -> (r: (Option<Polygon>, Notice))
    requires
        old(builder).wf(),
        command matches Command::AddPoint(pt) ==> pt.in_range(),
    ensures
        final(builder).wf(),
        final(builder)@ == edit_spec(old(builder)@, command).0,
        match r.0 {
            Some(polygon) => edit_spec(old(builder)@, command).1 == Some(contours_of(polygon@))
                && is_finished(contours_of(polygon@)),
            None => edit_spec(old(builder)@, command).1 is None,
        },
        r.1 == edit_spec(old(builder)@, command).2,
{
    match command {
        Command::AddPoint(pt) => match builder.add_point(pt) {
            Ok(()) => (None, Notice::Prompt),
            Err(e) => (None, Notice::Refused(e)),
        },
        Command::ClosePath => match builder.close_path() {
            Ok(()) => {
                let n = builder.contours.len();
                let closed = &builder.contours[n - 2];
                proof {
                    let tried = with_closing_point(old(builder)@);
                    assert(builder@ == tried.push(Seq::empty()));
                    assert(closed@ == builder@[n - 2]);
                    assert(builder@[n - 2] == tried.last());
                    assert(points_in_range(builder@[n - 2]));
                }
                (None, Notice::Closed(orientation(closed)))
            },
            Err(e) => (None, Notice::Refused(e)),
        },
        Command::Finish => match builder.finish() {
            Ok(polygon) => (Some(polygon), Notice::Prompt),
            Err(e) => (None, Notice::Refused(e)),
        },
        Command::Clear => {
            *builder = PolygonBuilder::new();
            (None, Notice::Cleared)
        },
    }
}

impl Session {
    /// Both polygons being drawn are in order, and both finished polygons are
    /// made of closed contours in range.
    pub open spec fn wf(&self) -> bool {
        &&& self.subject_builder.wf()
        &&& self.clip_builder.wf()
        &&& is_finished(contours_of(self.subject@))
        &&& is_finished(contours_of(self.clip@))
    }

    /// Starts a session in which nothing has been drawn.
    pub fn new() -> (s: Session)
        ensures
            s.wf(),
            s@ == new_session(),
    {
        let s = Session {
            status: Status::Main,
            subject_builder: PolygonBuilder::new(),
            clip_builder: PolygonBuilder::new(),
            subject: Vec::new(),
            clip: Vec::new(),
        };
        assert(contours_of(s.subject@) =~= Seq::<Seq<Point>>::empty());
        assert(contours_of(s.clip@) =~= Seq::<Seq<Point>>::empty());
        s
    }

    /// Carries out a command and says what the user is to be told.
    pub fn step(&mut self, command: Command) -> (notice: Notice)
        requires
            old(self).wf(),
            command matches Command::AddPoint(pt) ==> pt.in_range(),
        ensures
            final(self).wf(),
            (final(self)@, notice) == step_spec(old(self)@, command),
    {
        match self.status {
            Status::Main => {
                let (done, notice) = edit(&mut self.subject_builder, command);
                match done {
                    Some(polygon) => {
                        self.subject = polygon;
                        self.status = Status::Clipper;
                    },
                    None => {},
                }
                notice
            },
            Status::Clipper => {
                let (done, notice) = edit(&mut self.clip_builder, command);
                match done {
                    Some(polygon) => {
                        self.clip = polygon;
                        self.status = Status::Result;
                    },
                    None => {},
                }
                notice
            },
            Status::Result => match command {
                Command::AddPoint(_) => Notice::Ignored,
                Command::ClosePath => Notice::Ignored,
                _ => {
                    *self = Session::new();
                    Notice::Prompt
                },
            },
        }
    }

    /// Clips the finished subject polygon by the finished clip polygon.
    pub fn clipped(&self) -> (r: ClipResult)
        requires
            self.wf(),
        ensures
            r@ == clip_spec(self@.subject, self@.clip),
            r@.in_range(),
            r@.has_sources(self@.subject, self@.clip),
    {
        proof {
            lemma_finished_can_be_clipped(contours_of(self.subject@));
            lemma_finished_can_be_clipped(contours_of(self.clip@));
        }
        clipping(&self.subject, &self.clip)
    }
}

/// What `finish` hands out is fit for clipping.
pub proof fn lemma_finished_can_be_clipped(p: Seq<Seq<Point>>)
    requires
        is_finished(p),
    ensures
        contours_nonempty(p),
        contours_in_range(p),
{
    assert forall|k: int| 0 <= k < p.len() implies (#[trigger] p[k]).len() > 0 by {
        assert(is_closed(p[k]));
    }
}

} // verus!
