use vstd::prelude::*;

verus! {

/// Settings of the editing view.
pub struct EditorConfig {
    /// Soft-wrap lines wider than the view.
    pub line_wrap: bool,
}

/// The editor's settings.
pub struct Config {
    pub editor: EditorConfig,
}

impl Default for EditorConfig {
    fn default() -> (r: EditorConfig)
        ensures
            r.line_wrap,
    {
        EditorConfig { line_wrap: true }
    }
}

impl Default for Config {
    fn default() -> (r: Config)
        ensures
            r.editor.line_wrap,
    {
        Config { editor: EditorConfig { line_wrap: true } }
    }
}

} // verus!
