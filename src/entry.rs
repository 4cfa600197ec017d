//! A launchable application and its usage score.
use vstd::prelude::*;

verus! {

/// Stored scores are fixed-point: one launch weighs this many units.
pub const SCORE_SCALE: u64 = 1000;

/// One launchable application.
///
/// `uuid` is given by the catalog that holds the entry; `score` is the stored
/// (decay-inverted) usage weight in units of `1 / SCORE_SCALE` launch.
#[derive(Clone, Debug)]
pub struct App {
    pub name: String,
    pub icon: String,
    pub command: String,
    pub uuid: u64,
    pub score: u64,
}

/// What an `App` holds, as plain values.
pub struct AppView {
    pub name: Seq<char>,
    pub icon: Seq<char>,
    pub command: Seq<char>,
    pub uuid: u64,
    pub score: u64,
}

impl View for App {
    type V = AppView;

    open spec fn view(&self) -> AppView {
        AppView {
            name: self.name@,
            icon: self.icon@,
            command: self.command@,
            uuid: self.uuid,
            score: self.score,
        }
    }
}

/// Two entries stand for the same application when name, icon and command
/// agree; the id and the score play no part.
pub open spec fn same_content(a: AppView, b: AppView) -> bool {
    a.name == b.name && a.icon == b.icon && a.command == b.command
}

impl App {
    /// A fresh entry with no usage history and no id yet.
    pub fn new(name: String, icon: String, command: String) -> (r: App)
        ensures
            r@.name == name@,
            r@.icon == icon@,
            r@.command == command@,
            r@.uuid == 0,
            r@.score == 0,
    {
        App { name, icon, command, uuid: 0, score: 0 }
    }

    /// An independent copy with every field equal.
    pub fn duplicate(&self) -> (r: App)
        ensures
            r@ == self@,
    {
        App {
            name: self.name.clone(),
            icon: self.icon.clone(),
            command: self.command.clone(),
            uuid: self.uuid,
            score: self.score,
        }
    }

    /// Whether `self` and `other` stand for the same application.
    pub fn same_as(&self, other: &App) -> (r: bool)
        ensures
            r == same_content(self@, other@),
    {
        self.name == other.name && self.icon == other.icon && self.command == other.command
    }
}

impl PartialEq for App {
    fn eq(&self, other: &App) -> (r: bool) {
        self.same_as(other)
    }
}

impl vstd::std_specs::cmp::PartialEqSpecImpl for App {
    open spec fn obeys_eq_spec() -> bool {
        true
    }

    open spec fn eq_spec(&self, other: &App) -> bool {
        same_content(self@, other@)
    }
}

} // verus!
