use vstd::prelude::*;

verus! {

/// Settings kept between runs.
#[derive(Debug)]
pub struct AppPreferences {
    pub theme: String,
    pub transparency_enabled: bool,
    pub last_workspace_id: Option<String>,
}

/// Transparency is on unless the user turned it off.
pub fn default_transparency_enabled() -> (r: bool)
    ensures
        r,
{
    true
}

impl Default for AppPreferences {
    fn default() -> (r: Self)
        ensures
            r.theme@ == "system"@,
            r.transparency_enabled,
            r.last_workspace_id is None,
    {
        AppPreferences {
            theme: "system".to_owned(),
            transparency_enabled: default_transparency_enabled(),
            last_workspace_id: None,
        }
    }
}

/// Accepts the themes `light`, `dark` and `system`.
pub fn validate_theme(theme: &str) -> (r: Result<(), String>)
    ensures
        r is Ok <==> (theme@ == "light"@ || theme@ == "dark"@ || theme@ == "system"@),
{
    let t = theme.to_owned();
    if t == "light".to_owned() || t == "dark".to_owned() || t == "system".to_owned() {
        Ok(())
    } else {
        Err("Invalid theme: must be 'light', 'dark', or 'system'".to_owned())
    }
}

} // verus!
