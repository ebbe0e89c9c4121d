//! The exposition endpoint: what is answered to a request.
//!
//! One path serves the metrics. A request for it is answered with the text
//! that the active registry was encoded as, or with a server error where
//! encoding failed; a request for anything else is answered "not found".
//! Whether to scrape at all is decided before any script is run.
//!
//! A request asks for the metrics where its target is the path `/metrics`
//! and no more: no scheme or authority before it, and no query behind it
//! but an empty one.

use crate::text::same_text;
use vstd::prelude::*;

verus! {

/// What a request asks for.
#[derive(Clone, Copy, Debug, PartialEq, Eq, Structural)]
pub enum Route {
    /// The metrics of the active registry.
    Metrics,
    /// Nothing that is served.
    NotFound,
}

/// The target of a request, in its parts.
#[derive(Clone, Debug, PartialEq, Eq)]
pub struct Target {
    /// The target names a scheme or an authority.
    pub absolute: bool,
    pub path: String,
    /// What follows the question mark, where there is one.
    pub query: Option<String>,
}

/// A target as plain values.
pub struct TargetModel {
    pub absolute: bool,
    pub path: Seq<char>,
    pub query: Option<Seq<char>>,
}

impl View for Target {
    type V = TargetModel;

    open spec fn view(&self) -> TargetModel {
        TargetModel {
            absolute: self.absolute,
            path: self.path@,
            query: match self.query {
                Some(query) => Some(query@),
                None => None,
            },
        }
    }
}

/// An answer to a request.
#[derive(Clone, Debug, PartialEq, Eq)]
pub struct Reply {
    pub status: u16,
    pub content_type: Option<String>,
    pub body: String,
}

/// An answer as plain values.
pub struct ReplyModel {
    pub status: u16,
    pub content_type: Option<Seq<char>>,
    pub body: Seq<char>,
}

impl View for Reply {
    type V = ReplyModel;

    open spec fn view(&self) -> ReplyModel {
        ReplyModel {
            status: self.status,
            content_type: match self.content_type {
                Some(media) => Some(media@),
                None => None,
            },
            body: self.body@,
        }
    }
}

/// The one path that serves the metrics.
pub open spec fn metrics_path() -> Seq<char> {
    "/metrics"@
}

/// The media type of the exposition: OpenMetrics text, version 1.0.0, UTF-8.
pub open spec fn exposition_type() -> Seq<char> {
    "application/openmetrics-text; version=1.0.0; charset=utf-8"@
}

/// What a request for `target` asks for.
pub open spec fn route_of(target: TargetModel) -> Route {
    if !target.absolute && target.path == metrics_path() && (target.query matches Some(query)
        ==> query.len() == 0) {
        Route::Metrics
    } else {
        Route::NotFound
    }
}

/// The answer to a request for `route`, where `exposition` is the text that
/// the registry was encoded as, or `None` where encoding failed.
pub open spec fn reply_of(route: Route, exposition: Option<Seq<char>>) -> ReplyModel {
    match route {
        Route::NotFound => ReplyModel { status: 404, content_type: None, body: Seq::empty() },
        Route::Metrics => match exposition {
            Some(text) => ReplyModel {
                status: 200,
                content_type: Some(exposition_type()),
                body: text,
            },
            None => ReplyModel { status: 500, content_type: None, body: Seq::empty() },
        },
    }
}

/// Decides what a request for `target` asks for.
pub fn route(target: &Target) -> (r: Route)
    ensures
        r == route_of(target@),
{
    let unqueried = match &target.query {
        Some(query) => query.as_str().is_empty(),
        None => true,
    };
    if !target.absolute && unqueried && same_text(target.path.as_str(), "/metrics") {
        Route::Metrics
    } else {
        Route::NotFound
    }
}

/// Answers a request for `route`. `exposition` is the text that the registry
/// was encoded as, or `None` where encoding failed; it is not looked at
/// unless the request asks for the metrics.
pub fn reply_to(route: Route, exposition: Option<String>) -> (r: Reply)
    ensures
        r@ == reply_of(
            route,
            match exposition {
                Some(text) => Some(text@),
                None => None,
            },
        ),
{
    proof {
        reveal_strlit("");
    }
    assert(""@ =~= Seq::<char>::empty());
    match route {
        Route::NotFound => Reply { status: 404, content_type: None, body: "".to_owned() },
        Route::Metrics => match exposition {
            Some(text) => Reply {
                status: 200,
                content_type: Some(
                    "application/openmetrics-text; version=1.0.0; charset=utf-8".to_owned(),
                ),
                body: text,
            },
            None => Reply { status: 500, content_type: None, body: "".to_owned() },
        },
    }
}

} // verus!
