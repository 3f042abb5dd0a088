//! A feed-aggregation engine: sources are polled, their entries turned into
//! uniform items, deduplicated by natural key and stored, with a content
//! completeness classifier, a credential vault and the decisions of the
//! OAuth device flow and the sync scheduler.

pub mod catalog;
pub mod clock;
pub mod config;
pub mod detect;
pub mod duration;
pub mod extract;
pub mod feeds;
pub mod form;
pub mod markup;
pub mod model;
pub mod normalize;
pub mod oauth;
pub mod query;
pub mod secrets;
pub mod store;
pub mod sync;
pub mod text;
pub mod vault;

pub use detect::{
    classify_content, detect_content_completeness, Confidence, ContentCompleteness,
    DetectionResult,
};
pub use duration::{default_poll_interval, parse_duration, parse_ttl_duration, DurationError};
pub use model::{IngestSource, IngestedItem};
pub use store::{Database, Event, EventKind, Item, ItemFields, Secret, Source, StoreError, TtlKind};
pub use normalize::normalize_and_dedupe;
pub use vault::{SecretStore, TokenPair};
pub use oauth::{DeviceCodeResponse, DevicePoller, GitHubRepository, OAuthError, PollResult, PollerAction};
pub use query::ItemFilter;
pub use markup::strip_html;
pub use extract::{extract_full_text, ExtractionResult};
pub use config::{Config, GitHubConfig, GitHubRepo, Preferences, RssSource};
