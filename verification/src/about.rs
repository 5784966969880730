//! State of the About/Help panel: its sections, the keyboard shortcut
//! reference and which shortcut categories are collapsed.
use vstd::prelude::*;

verus! {

/// Keyboard shortcut category for organized display.
#[derive(Debug, Clone, Copy, PartialEq, Eq, Structural)]
pub enum ShortcutCategory {
    File,
    Edit,
    View,
    Formatting,
    Workspace,
    Navigation,
}

/// The categories in display order.
pub open spec fn category_order() -> Seq<ShortcutCategory> {
    seq![
        ShortcutCategory::File,
        ShortcutCategory::Edit,
        ShortcutCategory::View,
        ShortcutCategory::Formatting,
        ShortcutCategory::Workspace,
        ShortcutCategory::Navigation,
    ]
}

/// Display label of a category.
pub open spec fn category_label(c: ShortcutCategory) -> Seq<char> {
    match c {
        ShortcutCategory::File => "File"@,
        ShortcutCategory::Edit => "Edit"@,
        ShortcutCategory::View => "View"@,
        ShortcutCategory::Formatting => "Formatting"@,
        ShortcutCategory::Workspace => "Workspace"@,
        ShortcutCategory::Navigation => "Navigation"@,
    }
}

/// Icon of a category.
pub open spec fn category_icon(c: ShortcutCategory) -> Seq<char> {
    match c {
        ShortcutCategory::File => "📄"@,
        ShortcutCategory::Edit => "/"@,
        ShortcutCategory::View => "👁"@,
        ShortcutCategory::Formatting => "Aa"@,
        ShortcutCategory::Workspace => "📁"@,
        ShortcutCategory::Navigation => "↔"@,
    }
}

impl ShortcutCategory {
    /// All categories in display order.
    pub fn all() -> (r: Vec<ShortcutCategory>)
        ensures
            r@ == category_order(),
    {
        let r = vec![
            ShortcutCategory::File,
            ShortcutCategory::Edit,
            ShortcutCategory::View,
            ShortcutCategory::Formatting,
            ShortcutCategory::Workspace,
            ShortcutCategory::Navigation,
        ];
        assert(r@ =~= category_order());
        r
    }

    /// The display label for the category.
    pub fn label(&self) -> (r: &'static str)
        ensures
            r@ == category_label(*self),
    {
        match self {
            ShortcutCategory::File => "File",
            ShortcutCategory::Edit => "Edit",
            ShortcutCategory::View => "View",
            ShortcutCategory::Formatting => "Formatting",
            ShortcutCategory::Workspace => "Workspace",
            ShortcutCategory::Navigation => "Navigation",
        }
    }

    /// The icon for the category.
    pub fn icon(&self) -> (r: &'static str)
        ensures
            r@ == category_icon(*self),
    {
        match self {
            ShortcutCategory::File => "📄",
            ShortcutCategory::Edit => "/",
            ShortcutCategory::View => "👁",
            ShortcutCategory::Formatting => "Aa",
            ShortcutCategory::Workspace => "📁",
            ShortcutCategory::Navigation => "↔",
        }
    }
}

/// A keyboard shortcut entry.
pub struct Shortcut {
    pub keys: &'static str,
    pub action: &'static str,
}

impl Shortcut {
    /// A shortcut with the given keys and action.
    pub fn new(keys: &'static str, action: &'static str) -> (r: Self)
        ensures
            r.keys == keys,
            r.action == action,
    {
        Shortcut { keys, action }
    }
}

/// The (keys, action) pairs of a category, in display order.
pub open spec fn shortcut_table(c: ShortcutCategory) -> Seq<(Seq<char>, Seq<char>)> {
    match c {
        ShortcutCategory::File => seq![
            ("Ctrl+N"@, "New File"@),
            ("Ctrl+O"@, "Open File"@),
            ("Ctrl+S"@, "Save"@),
            ("Ctrl+Shift+S"@, "Save As"@),
            ("Ctrl+W"@, "Close Tab"@),
        ],
        ShortcutCategory::Edit => seq![
            ("Ctrl+Z"@, "Undo"@),
            ("Ctrl+Y"@, "Redo"@),
            ("Ctrl+F"@, "Find"@),
            ("Ctrl+H"@, "Find & Replace"@),
            ("Ctrl+A"@, "Select All"@),
            ("Ctrl+C"@, "Copy"@),
            ("Ctrl+X"@, "Cut"@),
            ("Ctrl+V"@, "Paste"@),
        ],
        ShortcutCategory::View => seq![
            ("Ctrl+E"@, "Toggle Raw/Rendered"@),
            ("Ctrl+Shift+O"@, "Toggle Outline"@),
            ("Ctrl++"@, "Zoom In"@),
            ("Ctrl+-"@, "Zoom Out"@),
            ("Ctrl+0"@, "Reset Zoom"@),
            ("Ctrl+,"@, "Settings"@),
            ("F1"@, "About / Help"@),
        ],
        ShortcutCategory::Formatting => seq![
            ("Ctrl+B"@, "Bold"@),
            ("Ctrl+I"@, "Italic"@),
            ("Ctrl+U"@, "Underline"@),
            ("Ctrl+K"@, "Insert Link"@),
            ("Ctrl+`"@, "Inline Code"@),
        ],
        ShortcutCategory::Workspace => seq![
            ("Ctrl+P"@, "Quick File Switcher"@),
            ("Ctrl+Shift+F"@, "Search in Files"@),
            ("Ctrl+Shift+E"@, "Toggle File Tree"@),
        ],
        ShortcutCategory::Navigation => seq![
            ("Ctrl+Tab"@, "Next Tab"@),
            ("Ctrl+Shift+Tab"@, "Previous Tab"@),
            ("Ctrl+G"@, "Go to Line"@),
            ("F3"@, "Find Next"@),
            ("Shift+F3"@, "Find Previous"@),
        ],
    }
}

/// The views of a list of shortcuts.
pub open spec fn shortcut_views(v: Seq<Shortcut>) -> Seq<(Seq<char>, Seq<char>)> {
    v.map_values(|s: Shortcut| (s.keys@, s.action@))
}

/// The shortcuts of a category, in display order.
pub fn get_shortcuts(category: ShortcutCategory) -> (r: Vec<Shortcut>)
    ensures
        shortcut_views(r@) == shortcut_table(category),
{
    let r = match category {
        ShortcutCategory::File => vec![
            Shortcut::new("Ctrl+N", "New File"),
            Shortcut::new("Ctrl+O", "Open File"),
            Shortcut::new("Ctrl+S", "Save"),
            Shortcut::new("Ctrl+Shift+S", "Save As"),
            Shortcut::new("Ctrl+W", "Close Tab"),
        ],
        ShortcutCategory::Edit => vec![
            Shortcut::new("Ctrl+Z", "Undo"),
            Shortcut::new("Ctrl+Y", "Redo"),
            Shortcut::new("Ctrl+F", "Find"),
            Shortcut::new("Ctrl+H", "Find & Replace"),
            Shortcut::new("Ctrl+A", "Select All"),
            Shortcut::new("Ctrl+C", "Copy"),
            Shortcut::new("Ctrl+X", "Cut"),
            Shortcut::new("Ctrl+V", "Paste"),
        ],
        ShortcutCategory::View => vec![
            Shortcut::new("Ctrl+E", "Toggle Raw/Rendered"),
            Shortcut::new("Ctrl+Shift+O", "Toggle Outline"),
            Shortcut::new("Ctrl++", "Zoom In"),
            Shortcut::new("Ctrl+-", "Zoom Out"),
            Shortcut::new("Ctrl+0", "Reset Zoom"),
            Shortcut::new("Ctrl+,", "Settings"),
            Shortcut::new("F1", "About / Help"),
        ],
        ShortcutCategory::Formatting => vec![
            Shortcut::new("Ctrl+B", "Bold"),
            Shortcut::new("Ctrl+I", "Italic"),
            Shortcut::new("Ctrl+U", "Underline"),
            Shortcut::new("Ctrl+K", "Insert Link"),
            Shortcut::new("Ctrl+`", "Inline Code"),
        ],
        ShortcutCategory::Workspace => vec![
            Shortcut::new("Ctrl+P", "Quick File Switcher"),
            Shortcut::new("Ctrl+Shift+F", "Search in Files"),
            Shortcut::new("Ctrl+Shift+E", "Toggle File Tree"),
        ],
        ShortcutCategory::Navigation => vec![
            Shortcut::new("Ctrl+Tab", "Next Tab"),
            Shortcut::new("Ctrl+Shift+Tab", "Previous Tab"),
            Shortcut::new("Ctrl+G", "Go to Line"),
            Shortcut::new("F3", "Find Next"),
            Shortcut::new("Shift+F3", "Find Previous"),
        ],
    };
    assert(shortcut_views(r@) =~= shortcut_table(category));
    r
}

/// About panel sections.
#[derive(Debug, Clone, Copy, PartialEq, Eq, Structural)]
pub enum AboutSection {
    About,
    Shortcuts,
}

impl Default for AboutSection {
    fn default() -> (r: Self)
        ensures
            r == AboutSection::About,
    {
        AboutSection::About
    }
}

impl AboutSection {
    /// The display label for the section.
    pub fn label(&self) -> (r: &'static str)
        ensures
            r@ == (match *self {
                AboutSection::About => "About"@,
                AboutSection::Shortcuts => "Shortcuts"@,
            }),
    {
        match self {
            AboutSection::About => "About",
            AboutSection::Shortcuts => "Shortcuts",
        }
    }

    /// The icon for the section.
    pub fn icon(&self) -> (r: &'static str)
        ensures
            r@ == (match *self {
                AboutSection::About => "○"@,
                AboutSection::Shortcuts => "⌘"@,
            }),
    {
        match self {
            AboutSection::About => "○",
            AboutSection::Shortcuts => "⌘",
        }
    }
}

/// Result of showing the about panel.
#[derive(Debug, Clone)]
pub struct AboutPanelOutput {
    /// Whether the panel should be closed.
    pub close_requested: bool,
}

impl Default for AboutPanelOutput {
    fn default() -> (r: Self)
        ensures
            !r.close_requested,
    {
        AboutPanelOutput { close_requested: false }
    }
}

/// About/Help panel state.
#[derive(Debug, Clone)]
pub struct AboutPanel {
    /// Currently active section.
    pub active_section: AboutSection,
    /// Which shortcut categories are collapsed.
    pub collapsed_categories: Vec<ShortcutCategory>,
}

impl Default for AboutPanel {
    fn default() -> (r: Self)
        ensures
            r.active_section == AboutSection::About,
            r.collapsed_categories@.len() == 0,
    {
        Self::new()
    }
}

impl AboutPanel {
    /// A new about panel: the About section is shown, nothing is collapsed.
    pub fn new() -> (r: Self)
        ensures
            r.active_section == AboutSection::About,
            r.collapsed_categories@.len() == 0,
    {
        AboutPanel { active_section: AboutSection::About, collapsed_categories: Vec::new() }
    }

    /// Whether the shortcuts of `category` are collapsed.
    pub fn is_collapsed(&self, category: ShortcutCategory) -> (b: bool)
        ensures
            b == self.collapsed_categories@.contains(category),
    {
        let mut i: usize = 0;
        while i < self.collapsed_categories.len()
            invariant
                i <= self.collapsed_categories@.len(),
                forall|k: int| 0 <= k < i ==> self.collapsed_categories@[k] != category,
            decreases self.collapsed_categories@.len() - i,
        {
            if self.collapsed_categories[i] == category {
                return true;
            }
            i = i + 1;
        }
        false
    }

    /// A click on a category header: a collapsed category is expanded (every
    /// occurrence is removed), an expanded one is collapsed (appended).
    pub fn toggle_category(&mut self, category: ShortcutCategory)
        ensures
            final(self).active_section == old(self).active_section,
            final(self).collapsed_categories@ == toggled(old(self).collapsed_categories@, category),
    {
        if self.is_collapsed(category) {
            let mut kept: Vec<ShortcutCategory> = Vec::new();
            let mut i: usize = 0;
            let ghost old_list = self.collapsed_categories@;
            while i < self.collapsed_categories.len()
                invariant
                    self.collapsed_categories@ == old_list,
                    i <= old_list.len(),
                    kept@ == without(old_list.take(i as int), category),
                decreases old_list.len() - i,
            {
                let c = self.collapsed_categories[i];
                proof {
                    assert(old_list.take(i + 1 as int).drop_last() =~= old_list.take(i as int));
                    reveal_with_fuel(Seq::filter, 1);
                }
                if c != category {
                    kept.push(c);
                }
                i = i + 1;
            }
            assert(old_list.take(old_list.len() as int) =~= old_list);
            self.collapsed_categories = kept;
        } else {
            self.collapsed_categories.push(category);
        }
    }
}

/// The collapsed list after a click on the header of `category`.
pub open spec fn toggled(list: Seq<ShortcutCategory>, category: ShortcutCategory) -> Seq<ShortcutCategory> {
    if list.contains(category) {
        without(list, category)
    } else {
        list.push(category)
    }
}

/// `list` without any occurrence of `category`.
pub open spec fn without(list: Seq<ShortcutCategory>, category: ShortcutCategory) -> Seq<ShortcutCategory> {
    list.filter(|c: ShortcutCategory| c != category)
}

proof fn lemma_without_subset(list: Seq<ShortcutCategory>, category: ShortcutCategory, x: ShortcutCategory)
    requires
        without(list, category).contains(x),
    ensures
        list.contains(x),
    decreases list.len(),
{
    reveal_with_fuel(Seq::filter, 1);
    if list.len() > 0 {
        let rest = list.drop_last();
        let w = without(rest, category);
        if list.last() == x {
            assert(list[list.len() - 1] == x);
        } else {
            if list.last() != category {
                assert(without(list, category) == w.push(list.last()));
                let k = choose|k: int| 0 <= k < without(list, category).len() && without(list, category)[k] == x;
                assert(k < w.len());
                assert(w[k] == x);
            } else {
                assert(without(list, category) == w);
            }
            assert(w.contains(x));
            lemma_without_subset(rest, category, x);
            let k = choose|k: int| 0 <= k < rest.len() && rest[k] == x;
            assert(list[k] == x);
        }
    }
}

proof fn lemma_without_contains(list: Seq<ShortcutCategory>, category: ShortcutCategory, x: ShortcutCategory)
    ensures
        without(list, category).contains(x) == (list.contains(x) && x != category),
{
    broadcast use vstd::seq_lib::group_filter_ensures;
    let f = |c: ShortcutCategory| c != category;
    if list.contains(x) && x != category {
        let k = choose|k: int| 0 <= k < list.len() && list[k] == x;
        assert(f(list[k]));
    }
    if without(list, category).contains(x) {
        let w = without(list, category);
        let k = choose|k: int| 0 <= k < w.len() && w[k] == x;
        assert(f(w[k]));
        lemma_without_subset(list, category, x);
    }
}

/// Clicking a category header twice leaves every category's membership in
/// the collapsed list as it was.
pub proof fn lemma_toggle_twice(
    list: Seq<ShortcutCategory>,
    category: ShortcutCategory,
    x: ShortcutCategory,
)
    ensures
        toggled(toggled(list, category), category).contains(x) == list.contains(x),
{
    let once = toggled(list, category);
    lemma_without_contains(list, category, x);
    lemma_without_contains(list, category, category);
    lemma_without_contains(once, category, x);
    if list.contains(category) {
        let twice = once.push(category);
        assert(twice[twice.len() - 1] == category);
        if twice.contains(x) && x != category {
            let k = choose|k: int| 0 <= k < twice.len() && twice[k] == x;
            assert(once[k] == x);
        }
        if once.contains(x) {
            let k = choose|k: int| 0 <= k < once.len() && once[k] == x;
            assert(twice[k] == x);
        }
    } else {
        assert(once[once.len() - 1] == category);
        if list.contains(x) {
            let k = choose|k: int| 0 <= k < list.len() && list[k] == x;
            assert(once[k] == x);
        }
        if once.contains(x) && x != category {
            let k = choose|k: int| 0 <= k < once.len() && once[k] == x;
            assert(k < list.len());
            assert(list[k] == x);
        }
    }
}

} // verus!
