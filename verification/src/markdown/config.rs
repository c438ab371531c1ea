//! Settings shared by the Markdown highlighter and editing hook.
use vstd::prelude::*;
use crate::buffer::EditorBuffer;
use crate::markdown::completion::{
    provider_of, query_after, refresh_from_provider, same_rows, session_ended, session_ends, session_wf,
    snapshot_of, CompletionProvider, CompletionSession, CompletionSnapshot, MAX_COMPLETION_ITEMS,
};
use crate::prompt::PromptItem;

verus! {

/// Display mode for Markdown syntax delimiters (`# `, `**`, `*`, `~~`, `` ` ``).
///
/// Block markers reveal when the cursor is anywhere on the line; inline
/// markers reveal only while the cursor sits inside the formatted word.
#[derive(Debug, Clone, Copy, PartialEq, Eq, Structural)]
pub enum ConcealMode {
    /// Markers are always visible with normal syntax coloring.
    Off,
    /// Markers on inactive lines are rendered with faint opacity.
    Dimmed,
    /// Markers are hidden until the cursor enters their word or marker.
    Hidden,
}

impl Default for ConcealMode {
    fn default() -> (m: Self)
        ensures
            m == ConcealMode::Dimmed,
    {
        ConcealMode::Dimmed
    }
}

/// Configuration for Markdown editing, highlighting and rendering.
#[derive(Debug, Clone, Copy, PartialEq, Eq, Structural)]
pub struct MarkdownConfig {
    /// How syntax delimiters are displayed on inactive lines.
    pub conceal_mode: ConcealMode,
    /// Whether horizontal rules render as divider quads.
    pub visual_thematic_breaks: bool,
    /// Whether clicking task checkboxes toggles them.
    pub interactive_tasks: bool,
    /// Whether table pipes and rows get structural styling.
    pub visual_tables: bool,
    /// Whether table columns are padded to equal display widths.
    pub table_alignment: bool,
    /// Whether `Tab` / `Shift+Tab` move between table cells.
    pub table_navigation: bool,
    /// Whether `Tab` / `Shift+Tab` indent and unindent list items.
    pub list_indentation: bool,
    /// Whether `Alt+Up` / `Alt+Down` move list items.
    pub list_reordering: bool,
    /// Spaces per list indent level.
    pub list_indent_size: usize,
}

/// The default configuration: everything on, dimmed markers, two-space
/// list indentation.
pub open spec fn default_markdown_config() -> MarkdownConfig {
    MarkdownConfig {
        conceal_mode: ConcealMode::Dimmed,
        visual_thematic_breaks: true,
        interactive_tasks: true,
        visual_tables: true,
        table_alignment: true,
        table_navigation: true,
        list_indentation: true,
        list_reordering: true,
        list_indent_size: 2,
    }
}

impl Default for MarkdownConfig {
    fn default() -> (c: Self)
        ensures
            c == default_markdown_config(),
    {
        MarkdownConfig {
            conceal_mode: ConcealMode::Dimmed,
            visual_thematic_breaks: true,
            interactive_tasks: true,
            visual_tables: true,
            table_alignment: true,
            table_navigation: true,
            list_indentation: true,
            list_reordering: true,
            list_indent_size: 2,
        }
    }
}

/// Markdown syntax highlighter settings holder.
#[derive(Debug, Clone)]
pub struct MarkdownHighlighter {
    config: MarkdownConfig,
}

impl MarkdownHighlighter {
    /// The active configuration.
    pub closed spec fn spec_config(&self) -> MarkdownConfig {
        self.config
    }

    /// Creates a highlighter with the default configuration.
    pub fn new() -> (h: Self)
        ensures
            h.spec_config() == default_markdown_config(),
    {
        MarkdownHighlighter::with_config(MarkdownConfig::default())
    }

    /// Creates a highlighter with a custom configuration.
    pub fn with_config(config: MarkdownConfig) -> (h: Self)
        ensures
            h.spec_config() == config,
    {
        MarkdownHighlighter { config }
    }

    /// Returns the active configuration.
    pub fn config(&self) -> (c: &MarkdownConfig)
        ensures
            *c == self.spec_config(),
    {
        &self.config
    }

    /// Updates the configuration.
    pub fn set_config(&mut self, config: MarkdownConfig)
        ensures
            final(self).spec_config() == config,
    {
        self.config = config;
    }
}

/// The Markdown editing hook: its settings, the wikilink completion
/// provider a host installed, and the open `[[` completion session.
pub struct MarkdownHook {
    interactive_tasks: bool,
    table_navigation: bool,
    list_indentation: bool,
    list_reordering: bool,
    list_indent_size: usize,
    completion_provider: Option<CompletionProvider>,
    completion: Option<CompletionSession>,
}

/// The settings of a [`MarkdownHook`], in field order.
pub struct HookSettings {
    /// Click toggles task boxes.
    pub interactive_tasks: bool,
    /// Tab moves between table cells.
    pub table_navigation: bool,
    /// Tab indents list items.
    pub list_indentation: bool,
    /// Alt+Up/Down moves list items.
    pub list_reordering: bool,
    /// Spaces per list indent level.
    pub list_indent_size: usize,
}

impl MarkdownHook {
    /// Whether a completion provider is installed.
    pub closed spec fn has_provider_view(&self) -> bool {
        self.completion_provider is Some
    }

    /// The open completion session, if any.
    pub closed spec fn completion_view(&self) -> Option<CompletionSession> {
        self.completion
    }

    /// The hook's settings.
    pub closed spec fn settings(&self) -> HookSettings {
        HookSettings {
            interactive_tasks: self.interactive_tasks,
            table_navigation: self.table_navigation,
            list_indentation: self.list_indentation,
            list_reordering: self.list_reordering,
            list_indent_size: self.list_indent_size,
        }
    }

    /// Creates a hook with every feature on and two-space list indentation.
    pub fn new() -> (h: Self)
        ensures
            h.settings() == (HookSettings {
                interactive_tasks: true,
                table_navigation: true,
                list_indentation: true,
                list_reordering: true,
                list_indent_size: 2,
            }),
            !h.has_provider_view(),
            h.completion_view() is None,
    {
        MarkdownHook {
            interactive_tasks: true,
            table_navigation: true,
            list_indentation: true,
            list_reordering: true,
            list_indent_size: 2,
            completion_provider: None,
            completion: None,
        }
    }

    /// Creates a hook honoring the given configuration.
    pub fn with_config(config: MarkdownConfig) -> (h: Self)
        ensures
            h.settings() == (HookSettings {
                interactive_tasks: config.interactive_tasks,
                table_navigation: config.table_navigation,
                list_indentation: config.list_indentation,
                list_reordering: config.list_reordering,
                list_indent_size: config.list_indent_size,
            }),
            !h.has_provider_view(),
            h.completion_view() is None,
    {
        MarkdownHook {
            interactive_tasks: config.interactive_tasks,
            table_navigation: config.table_navigation,
            list_indentation: config.list_indentation,
            list_reordering: config.list_reordering,
            list_indent_size: config.list_indent_size,
            completion_provider: None,
            completion: None,
        }
    }

    /// Updates whether mouse clicks toggle task checkboxes.
    pub fn set_interactive_tasks(&mut self, interactive: bool)
        ensures
            final(self).settings() == (HookSettings {
                interactive_tasks: interactive,
                ..old(self).settings()
            }),
            final(self).has_provider_view() == old(self).has_provider_view(),
            final(self).completion_view() == old(self).completion_view(),
    {
        self.interactive_tasks = interactive;
    }

    /// Returns whether mouse clicks toggle task checkboxes.
    pub fn interactive_tasks(&self) -> (b: bool)
        ensures
            b == self.settings().interactive_tasks,
    {
        self.interactive_tasks
    }

    /// Updates whether `Tab` / `Shift+Tab` move between table cells.
    pub fn set_table_navigation(&mut self, enabled: bool)
        ensures
            final(self).settings() == (HookSettings {
                table_navigation: enabled,
                ..old(self).settings()
            }),
            final(self).has_provider_view() == old(self).has_provider_view(),
            final(self).completion_view() == old(self).completion_view(),
    {
        self.table_navigation = enabled;
    }

    /// Returns whether table cell navigation is enabled.
    pub fn table_navigation(&self) -> (b: bool)
        ensures
            b == self.settings().table_navigation,
    {
        self.table_navigation
    }

    /// Updates whether `Tab` / `Shift+Tab` indent and unindent list items.
    pub fn set_list_indentation(&mut self, enabled: bool)
        ensures
            final(self).settings() == (HookSettings {
                list_indentation: enabled,
                ..old(self).settings()
            }),
            final(self).has_provider_view() == old(self).has_provider_view(),
            final(self).completion_view() == old(self).completion_view(),
    {
        self.list_indentation = enabled;
    }

    /// Returns whether list indentation is enabled.
    pub fn list_indentation(&self) -> (b: bool)
        ensures
            b == self.settings().list_indentation,
    {
        self.list_indentation
    }

    /// Updates whether `Alt+Up` / `Alt+Down` move list items.
    pub fn set_list_reordering(&mut self, enabled: bool)
        ensures
            final(self).settings() == (HookSettings {
                list_reordering: enabled,
                ..old(self).settings()
            }),
            final(self).has_provider_view() == old(self).has_provider_view(),
            final(self).completion_view() == old(self).completion_view(),
    {
        self.list_reordering = enabled;
    }

    /// Returns whether list reordering is enabled.
    pub fn list_reordering(&self) -> (b: bool)
        ensures
            b == self.settings().list_reordering,
    {
        self.list_reordering
    }

    /// Sets the number of spaces per list indent level.
    pub fn set_list_indent_size(&mut self, size: usize)
        ensures
            final(self).settings() == (HookSettings {
                list_indent_size: size,
                ..old(self).settings()
            }),
            final(self).has_provider_view() == old(self).has_provider_view(),
            final(self).completion_view() == old(self).completion_view(),
    {
        self.list_indent_size = size;
    }

    /// Installs the callback supplying wikilink completion candidates.
    /// Typing the second `[` of `[[` then opens a session: typing filters
    /// its rows, `Up`/`Down` move, `Enter`/`Tab` accept (keeping any
    /// `|alias` and closing with `]]`), `Esc`, typing `]` or leaving the
    /// anchor dismisses.
    pub fn set_completion_provider<F: Fn(&str) -> Vec<PromptItem> + Send + Sync + 'static>(
        &mut self,
        provider: std::sync::Arc<F>,
    )
        ensures
            final(self).settings() == old(self).settings(),
            final(self).has_provider_view(),
            final(self).completion_view() == old(self).completion_view(),
    {
        self.completion_provider = Some(provider_of(provider));
    }

    /// Returns whether a completion provider is installed.
    pub fn has_completion_provider(&self) -> (b: bool)
        ensures
            b == self.has_provider_view(),
    {
        self.completion_provider.is_some()
    }

    /// The rows and selection of the open completion session, if any.
    pub fn completion_snapshot(&self) -> (r: Option<CompletionSnapshot>)
        ensures
            match self.completion_view() {
                Some(s) => r matches Some(x) && same_rows(x.items@, s.items@) && x.selected == s.selected,
                None => r is None,
            },
    {
        match &self.completion {
            Some(s) => Some(snapshot_of(s)),
            None => None,
        }
    }

    /// Takes the open session out, leaving none.
    pub(crate) fn take_completion(&mut self) -> (r: Option<CompletionSession>)
        ensures
            r == old(self).completion_view(),
            final(self).completion_view() is None,
            final(self).settings() == old(self).settings(),
            final(self).has_provider_view() == old(self).has_provider_view(),
    {
        let mut taken: Option<CompletionSession> = None;
        std::mem::swap(&mut taken, &mut self.completion);
        taken
    }

    /// Puts a session (or none) back.
    pub(crate) fn set_completion(&mut self, c: Option<CompletionSession>)
        ensures
            final(self).completion_view() == c,
            final(self).settings() == old(self).settings(),
            final(self).has_provider_view() == old(self).has_provider_view(),
    {
        self.completion = c;
    }

    /// Whether a provider is installed.
    pub(crate) fn completion_provider_set(&self) -> (b: bool)
        ensures
            b == self.has_provider_view(),
    {
        self.completion_provider.is_some()
    }

    /// Re-ranks `sess` from the provider for `query` (no change without one).
    pub(crate) fn fill_session(&self, sess: &mut CompletionSession, query: &str)
        ensures
            final(sess).trigger_start == old(sess).trigger_start,
            final(sess).trigger_row == old(sess).trigger_row,
            self.has_provider_view() ==> final(sess).items@.len() <= MAX_COMPLETION_ITEMS && session_wf(&*final(sess))
                && final(sess).selected == if final(sess).items@.len() == 0 {
                0
            } else if old(sess).selected < final(sess).items@.len() {
                old(sess).selected
            } else {
                (final(sess).items@.len() - 1) as usize
            },
            !self.has_provider_view() ==> *final(sess) == *old(sess),
    {
        match &self.completion_provider {
            Some(p) => refresh_from_provider(sess, p, query),
            None => {},
        }
    }

    /// Re-ranks `sess` from the provider for the text between its `[[` and
    /// the cursor (empty when that cannot be read).
    pub(crate) fn requery(&self, buffer: &EditorBuffer, sess: &mut CompletionSession)
        ensures
            final(sess).trigger_start == old(sess).trigger_start,
            final(sess).trigger_row == old(sess).trigger_row,
            self.has_provider_view() ==> final(sess).items@.len() <= MAX_COMPLETION_ITEMS && session_wf(&*final(sess))
                && final(sess).selected == if final(sess).items@.len() == 0 {
                0
            } else if old(sess).selected < final(sess).items@.len() {
                old(sess).selected
            } else {
                (final(sess).items@.len() - 1) as usize
            },
            !self.has_provider_view() ==> *final(sess) == *old(sess),
    {
        let q = query_after(buffer, sess.trigger_start);
        self.fill_session(sess, q.as_str());
    }

    /// Ends the open session once the cursor left its anchor.
    pub(crate) fn dismiss_if_left(&mut self, buffer: &EditorBuffer)
        ensures
            final(self).settings() == old(self).settings(),
            final(self).has_provider_view() == old(self).has_provider_view(),
            final(self).completion_view() == match old(self).completion_view() {
                Some(s) => if session_ends(
                    buffer.text_view(),
                    buffer.cursor_view(),
                    s.trigger_start as nat,
                    s.trigger_row as nat,
                ) {
                    None
                } else {
                    Some(s)
                },
                None => None,
            },
    {
        let end = match &self.completion {
            Some(s) => session_ended(buffer, s.trigger_start, s.trigger_row),
            None => false,
        };
        if end {
            self.completion = None;
        }
    }

    /// Returns the number of spaces per list indent level.
    pub fn list_indent_size(&self) -> (n: usize)
        ensures
            n == self.settings().list_indent_size,
    {
        self.list_indent_size
    }
}


/// A settings update reads back what it stored: once the interactive-task
/// flag is set to `b` (and nothing set it since), the getter gives `b` and
/// every other setting reads as before.
pub proof fn law_interactive_tasks_reads_back(h0: MarkdownHook, h1: MarkdownHook, b: bool)
    requires
        h1.settings() == (HookSettings { interactive_tasks: b, ..h0.settings() }),
    ensures
        h1.settings().interactive_tasks == b,
        h1.settings().table_navigation == h0.settings().table_navigation,
        h1.settings().list_indentation == h0.settings().list_indentation,
        h1.settings().list_reordering == h0.settings().list_reordering,
        h1.settings().list_indent_size == h0.settings().list_indent_size,
{
}

/// Likewise for the table-navigation flag.
pub proof fn law_table_navigation_reads_back(h0: MarkdownHook, h1: MarkdownHook, b: bool)
    requires
        h1.settings() == (HookSettings { table_navigation: b, ..h0.settings() }),
    ensures
        h1.settings().table_navigation == b,
        h1.settings().interactive_tasks == h0.settings().interactive_tasks,
        h1.settings().list_indentation == h0.settings().list_indentation,
        h1.settings().list_reordering == h0.settings().list_reordering,
        h1.settings().list_indent_size == h0.settings().list_indent_size,
{
}

} // verus!
