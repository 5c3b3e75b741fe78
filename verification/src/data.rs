//! The data model: machine status reports, derived notifications, and the
//! collector's configuration record.

use vstd::prelude::*;

verus! {

/// Memory and swap counters of one machine, in bytes.
#[derive(Clone, Copy, PartialEq, Eq, Structural, Debug)]
pub struct MemoryStatus {
    pub total_memory: u64,
    pub free_memory: u64,
    pub available_memory: u64,
    pub total_swap: u64,
    pub free_swap: u64,
}

/// The most recent report of one machine. `timestamp` is assigned by the
/// collector at receipt; a value submitted by an agent is never trusted.
pub struct MachineStatus {
    pub timestamp: Option<i64>,
    pub name: String,
    pub memory: MemoryStatus,
}

/// Mathematical value of a [`MachineStatus`].
#[verifier::ext_equal]
pub ghost struct MachineStatusView {
    pub timestamp: Option<i64>,
    pub name: Seq<char>,
    pub memory: MemoryStatus,
}

impl View for MachineStatus {
    type V = MachineStatusView;

    open spec fn view(&self) -> MachineStatusView {
        MachineStatusView { timestamp: self.timestamp, name: self.name@, memory: self.memory }
    }
}

impl Clone for MachineStatus {
    fn clone(&self) -> (r: Self)
        ensures
            r == *self,
    {
        MachineStatus { timestamp: self.timestamp, name: self.name.clone(), memory: self.memory }
    }
}

/// A derived, ephemeral health view of one machine; never persisted.
pub struct Notification {
    pub color: String,
    pub title: String,
    pub content: String,
}

/// Mathematical value of a [`Notification`].
#[verifier::ext_equal]
pub ghost struct NotificationView {
    pub color: Seq<char>,
    pub title: Seq<char>,
    pub content: Seq<char>,
}

impl View for Notification {
    type V = NotificationView;

    open spec fn view(&self) -> NotificationView {
        NotificationView { color: self.color@, title: self.title@, content: self.content@ }
    }
}

impl Clone for Notification {
    fn clone(&self) -> (r: Self)
        ensures
            r == *self,
    {
        Notification {
            color: self.color.clone(),
            title: self.title.clone(),
            content: self.content.clone(),
        }
    }
}

/// The collector's configuration. An empty `password` disables
/// authentication.
pub struct Config {
    pub url: String,
    pub twitch_logins: Vec<String>,
    pub password: String,
}

/// Mathematical value of a [`Config`].
#[verifier::ext_equal]
pub ghost struct ConfigView {
    pub url: Seq<char>,
    pub twitch_logins: Seq<Seq<char>>,
    pub password: Seq<char>,
}

impl View for Config {
    type V = ConfigView;

    open spec fn view(&self) -> ConfigView {
        ConfigView {
            url: self.url@,
            twitch_logins: self.twitch_logins.deep_view(),
            password: self.password@,
        }
    }
}

impl Clone for Config {
    fn clone(&self) -> (r: Self)
        ensures
            r@ == self@,
    {
        let twitch_logins = self.twitch_logins.clone();
        proof {
            assert(twitch_logins@ =~= self.twitch_logins@);
            assert(twitch_logins.deep_view() =~= self.twitch_logins.deep_view());
        }
        let r = Config {
            url: self.url.clone(),
            twitch_logins,
            password: self.password.clone(),
        };
        proof {
            assert(r@ =~= self@);
        }
        r
    }
}

/// Third-party integration credentials: loaded at startup and otherwise
/// inert — no core operation reads or writes them.
pub struct Credentials {
    pub twitch_client_id: String,
    pub twitch_app_access_token: String,
}

impl Clone for Credentials {
    fn clone(&self) -> (r: Self)
        ensures
            r == *self,
    {
        Credentials {
            twitch_client_id: self.twitch_client_id.clone(),
            twitch_app_access_token: self.twitch_app_access_token.clone(),
        }
    }
}

} // verus!
