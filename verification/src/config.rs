//! The node configuration report: what a client learns about this
//! instance, assembled from injected settings.

use vstd::prelude::*;

verus! {

/// hCaptcha configuration.
pub struct CaptchaFeature {
    /// Whether captcha is enabled.
    pub enabled: bool,
    /// Client key used for solving captcha.
    pub key: String,
}

/// Generic service configuration.
pub struct Feature {
    /// Whether the service is enabled.
    pub enabled: bool,
    /// URL pointing to the service.
    pub url: String,
}

/// Voice server configuration.
pub struct VoiceFeature {
    /// Whether voice is enabled.
    pub enabled: bool,
    /// URL pointing to the voice API.
    pub url: String,
    /// URL pointing to the voice WebSocket server.
    pub ws: String,
}

/// Feature configuration.
pub struct RevoltFeatures {
    /// hCaptcha configuration.
    pub captcha: CaptchaFeature,
    /// Whether email verification is enabled.
    pub email: bool,
    /// Whether this server is invite only.
    pub invite_only: bool,
    /// File server service configuration.
    pub autumn: Feature,
    /// Proxy service configuration.
    pub january: Feature,
    /// Voice server configuration.
    pub voso: VoiceFeature,
    /// Prompt server service configuration.
    pub promptserv: Feature,
}

/// Build information.
pub struct BuildInformation {
    /// Commit hash.
    pub commit_sha: String,
    /// Commit timestamp.
    pub commit_timestamp: String,
    /// Git semver.
    pub semver: String,
    /// Git origin URL.
    pub origin_url: String,
    /// Build timestamp.
    pub timestamp: String,
}

/// Server configuration.
pub struct RevoltConfig {
    /// API version.
    pub revolt: String,
    /// Features enabled on this node.
    pub features: RevoltFeatures,
    /// WebSocket URL.
    pub ws: String,
    /// URL pointing to the client serving this node.
    pub app: String,
    /// Web Push VAPID public key.
    pub vapid: String,
    /// Build information.
    pub build: BuildInformation,
}

/// A hosted service read from the settings: enabled exactly when its
/// URL is non-empty.
pub fn service_feature(url: String) -> (f: Feature)
    ensures
        f.enabled == (url@.len() != 0),
        f.url == url,
{
    let enabled = !url.as_str().is_empty();
    Feature { enabled: enabled, url: url }
}

/// Assemble the configuration report from injected settings: the three
/// hosted services are enabled exactly when their URL is non-empty,
/// and everything else is carried through unchanged.
pub fn build_config(
    revolt: String,
    use_captcha: bool,
    captcha_key: String,
    use_email: bool,
    invite_only: bool,
    autumn_url: String,
    january_url: String,
    promptserv_url: String,
    use_voso: bool,
    voso_url: String,
    voso_ws: String,
    ws: String,
    app: String,
    vapid: String,
    build: BuildInformation,
) -> (c: RevoltConfig)
    ensures
        c.revolt == revolt,
        c.features.captcha.enabled == use_captcha,
        c.features.captcha.key == captcha_key,
        c.features.email == use_email,
        c.features.invite_only == invite_only,
        c.features.autumn.enabled == (autumn_url@.len() != 0),
        c.features.autumn.url == autumn_url,
        c.features.january.enabled == (january_url@.len() != 0),
        c.features.january.url == january_url,
        c.features.promptserv.enabled == (promptserv_url@.len() != 0),
        c.features.promptserv.url == promptserv_url,
        c.features.voso.enabled == use_voso,
        c.features.voso.url == voso_url,
        c.features.voso.ws == voso_ws,
        c.ws == ws,
        c.app == app,
        c.vapid == vapid,
        c.build == build,
{
    RevoltConfig {
        revolt: revolt,
        features: RevoltFeatures {
            captcha: CaptchaFeature { enabled: use_captcha, key: captcha_key },
            email: use_email,
            invite_only: invite_only,
            autumn: service_feature(autumn_url),
            january: service_feature(january_url),
            voso: VoiceFeature { enabled: use_voso, url: voso_url, ws: voso_ws },
            promptserv: service_feature(promptserv_url),
        },
        ws: ws,
        app: app,
        vapid: vapid,
        build: build,
    }
}

} // verus!
