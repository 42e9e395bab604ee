use vstd::prelude::*;

use crate::state::signal::Signal;
use crate::workspace::tree::Tree;

verus! {

/// The pages available in the app.
#[derive(Debug, Clone, Copy, PartialEq, Eq, Structural)]
pub enum Pages {
    Project,
}

impl Pages {
    /// The name of the page.
    pub fn page_name(&self) -> (name: &'static str)
        ensures
            name@ == "Project Space"@,
    {
        match self {
            Pages::Project => "Project Space",
        }
    }

    /// The name of the icon of the page.
    pub fn page_icon(&self) -> (icon: &'static str)
        ensures
            icon@ == "table-cells"@,
    {
        match self {
            Pages::Project => "table-cells",
        }
    }
}

/// The state of the app that does not depend on the ui toolkit: the errors
/// to show, the page being shown, and the projects (each a `Tree`).
pub struct AppState<P, S, I> {
    app_errors: Vec<String>,
    page: Pages,
    current_tree: Option<usize>,
    orchard: Vec<Tree<P, S, I>>,
}

impl<P, S, I> AppState<P, S, I> {
    /// The current tree, when there is one, is one of the projects, and
    /// every project is a well-formed tree.
    #[verifier::type_invariant]
    spec fn current_tree_exists(self) -> bool {
        &&& self.current_tree matches Some(i) ==> i < self.orchard.len()
        &&& forall|k: int| 0 <= k < self.orchard@.len() ==> (#[trigger] self.orchard@[k]).wf()
    }

    pub closed spec fn errors(self) -> Seq<String> {
        self.app_errors@
    }

    pub closed spec fn page(self) -> Pages {
        self.page
    }

    pub closed spec fn current(self) -> Option<usize> {
        self.current_tree
    }

    pub closed spec fn trees(self) -> Seq<Tree<P, S, I>> {
        self.orchard@
    }

    // initializing
    /// Creates the state of a new app, and the signal that it starts with.
    pub fn new() -> (result: (Self, Signal))
        ensures
            result.0.errors() == Seq::<String>::empty(),
            result.0.page() == Pages::Project,
            result.0.current() is None,
            result.0.trees() == Seq::<Tree<P, S, I>>::empty(),
            result.1 == Signal::StartLoading,
    {
        let state = AppState { app_errors: Vec::new(), page: Pages::Project, current_tree: None, orchard: Vec::new() };
        (state, Signal::StartLoading)
    }

    // app info getters
    /// The title of the app.
    pub fn title(&self) -> (title: &'static str)
        ensures
            title@ == "Moonlight"@,
    {
        "Moonlight"
    }

    // state getters
    /// Gets the page being shown.
    pub fn get_page(&self) -> (page: Pages)
        ensures
            page == self.page(),
    {
        self.page
    }

    /// Gets the `app_errors`.
    pub fn get_app_errors(&self) -> (errors: &Vec<String>)
        ensures
            errors@ == self.errors(),
    {
        &self.app_errors
    }

    // project getters
    /// Gets the current `Tree`.
    pub fn get_current_tree(&self) -> (tree: Option<&Tree<P, S, I>>)
        ensures
            tree is Some <==> self.current() is Some,
            tree is Some ==> *tree.unwrap() == self.trees()[self.current().unwrap() as int],
            tree is Some ==> tree.unwrap().wf(),
    {
        proof {
            use_type_invariant(self);
        }
        match self.current_tree {
            Some(i) => Some(&self.orchard[i]),
            None => None,
        }
    }

    // running
    /// Updates the state for a given `Signal`, and returns the signal that
    /// follows from it, if any.
    pub fn update(&mut self, signal: Signal) -> (next: Option<Signal>)
        ensures
            final(self).page() == old(self).page(),
            final(self).current() == old(self).current(),
            final(self).trees() == old(self).trees(),
            final(self).errors() == if signal == Signal::DismissErrors {
                Seq::<String>::empty()
            } else {
                old(self).errors()
            },
            next == if signal == Signal::StartLoading {
                Some(Signal::FinishedLoading)
            } else {
                None::<Signal>
            },
    {
        proof {
            use_type_invariant(&*self);
        }
        match signal {
            // initial app loading
            Signal::StartLoading => Some(Signal::FinishedLoading),
            Signal::FinishedLoading => None,
            // errors
            Signal::DismissErrors => {
                self.app_errors = Vec::new();
                None
            },
            // node tree
            Signal::SelectNode(_) => None,
        }
    }
}

} // verus!
