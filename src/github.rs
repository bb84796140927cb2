//! Issue events of the game catalogue's repository.
use vstd::prelude::*;

verus! {

pub struct GithubUser {
    pub login: String,
}

pub struct GithubLabel {
    pub name: String,
}

pub struct GithubIssue {
    pub title: String,
    pub body: String,
    pub state: String,
    pub labels: Vec<GithubLabel>,
}

pub struct GithubRepo {
    pub owner: GithubUser,
}

pub struct GithubPayload {
    pub action: String,
    pub issue: GithubIssue,
    pub repository: GithubRepo,
    pub sender: GithubUser,
}

impl GithubPayload {
    /// The event was sent by the repository's owner.
    pub fn is_owner(&self) -> (r: bool)
        ensures
            r == (self.sender.login@ == self.repository.owner.login@),
    {
        self.sender.login == self.repository.owner.login
    }
}

} // verus!
