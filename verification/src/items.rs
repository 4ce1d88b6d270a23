//! The data carried through the search protocol: applications, launchable
//! items, launch requests, result metadata, and the error taxonomy.

use vstd::prelude::*;

verus! {

/// The application a search provider serves: its desktop identifier and the
/// icon shown beside every result of this provider.
pub struct App {
    /// Desktop identifier, e.g. `jetbrains-idea.desktop`.
    pub id: String,
    /// Icon identifier, fixed per session, shared by all results.
    pub icon: String,
}

/// One launchable item of the candidate collection: a display name and the
/// resource locator handed to the launcher when the item is chosen.
pub struct LaunchItem {
    /// Human-readable name of the item.
    pub name: String,
    /// URI or path opened on activation; also used as the description line.
    pub uri: String,
}

impl View for LaunchItem {
    type V = (Seq<char>, Seq<char>);

    open spec fn view(&self) -> (Seq<char>, Seq<char>) {
        (self.name@, self.uri@)
    }
}

impl LaunchItem {
    /// Copy of the item with the same name and locator.
    pub fn duplicate(&self) -> (r: LaunchItem)
        ensures
            r@ == self@,
    {
        LaunchItem { name: self.name.clone(), uri: self.uri.clone() }
    }
}

/// How one of the five protocol operations failed.
#[derive(Debug)]
pub enum SessionError {
    /// The items source could not supply the collection; carries the
    /// displayable cause. The previous cache, if any, stays valid.
    SourceUnavailable(String),
    /// An activation referenced an id absent from the current cache; carries
    /// that id.
    ResultNotFound(String),
    /// The launcher reported failure; carries its reported detail.
    LaunchFailed(String),
}

/// The side effect a successful activation asks the host to perform.
pub struct LaunchRequest {
    /// Desktop identifier of the application to launch.
    pub app_id: String,
    /// Locator to open, or `None` to launch the application bare.
    pub uri: Option<String>,
}

/// Display metadata for one result id.
pub struct ResultMeta {
    /// The result id the record belongs to.
    pub id: String,
    /// Display name of the item.
    pub name: String,
    /// Textual icon identifier, the same for every record of one session.
    pub gicon: String,
    /// Description line, populated from the item's resource locator.
    pub description: String,
}

impl View for ResultMeta {
    type V = (Seq<char>, Seq<char>, Seq<char>, Seq<char>);

    open spec fn view(&self) -> (Seq<char>, Seq<char>, Seq<char>, Seq<char>) {
        (self.id@, self.name@, self.gicon@, self.description@)
    }
}

/// An error occurred while starting the main loop.
pub enum MainLoopError {
    /// Failed to acquire the main context.
    FailedToAcquireContext,
}

impl MainLoopError {
    /// Displayable message for the error.
    pub fn message(&self) -> (s: String)
        ensures
            s@ == "Failed to acquire context"@,
    {
        String::from_str("Failed to acquire context")
    }
}

} // verus!
