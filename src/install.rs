//! Planning an installation: which components go where.
//!
//! Every detected component is replace-installed: its destination parent is
//! created, any directory already at the destination is removed, and the
//! new content is copied in. Destinations are relative to the home
//! directory.
use vstd::prelude::*;
use vstd::string::StringExecFns;
use crate::classify::{
    any_entry, font_files, has_cursors, has_fonts, has_gtk_or_wm_components, has_icons,
    is_cursor_marker, is_font_file, is_icon_marker, is_wm_marker,
};
use crate::error::ThemeError;
use crate::manifest::{check_theme_name, valid_theme_name};

verus! {

/// A part of a theme that is installed on its own.
#[derive(Clone, Copy, PartialEq, Eq, Structural, Debug)]
pub enum Component {
    /// Window-manager, shell and toolkit themes.
    WindowManager,
    Icons,
    Cursors,
    Fonts,
}

/// One replace-install.
pub struct InstallStep {
    pub component: Component,
    /// The directory that is created first.
    pub parent: String,
    /// The directory that is removed if present and then filled.
    pub dest: String,
    /// `None`: the whole tree is copied into `dest`. `Some(files)`: only
    /// these files of the tree's root are.
    pub files: Option<Vec<String>>,
}

/// A step as a mathematical value: component, parent, destination, files.
pub type StepView = (Component, Seq<char>, Seq<char>, Option<Seq<Seq<char>>>);

pub open spec fn names(v: Seq<String>) -> Seq<Seq<char>> {
    v.map_values(|s: String| s@)
}

impl View for InstallStep {
    type V = StepView;

    open spec fn view(&self) -> StepView {
        (
            self.component,
            self.parent@,
            self.dest@,
            match self.files {
                Some(f) => Some(names(f@)),
                None => None,
            },
        )
    }
}

pub open spec fn steps_view(s: Seq<InstallStep>) -> Seq<StepView> {
    s.map_values(|st: InstallStep| st@)
}

/// The directory, under home, that receives a component.
pub open spec fn component_root(c: Component) -> Seq<char> {
    match c {
        Component::WindowManager => ".themes"@,
        Component::Icons => ".local/share/icons"@,
        Component::Cursors => ".local/share/icons"@,
        Component::Fonts => ".local/share/fonts"@,
    }
}

/// Where, under home, component `c` of theme `name` is installed. Icons
/// and cursors share a parent but not a folder: the cursor set is a theme
/// of its own, `<name>-cursors`.
pub open spec fn component_dest(c: Component, name: Seq<char>) -> Seq<char> {
    match c {
        Component::Cursors => component_root(c) + "/"@ + name + "-cursors"@,
        _ => component_root(c) + "/"@ + name,
    }
}

/// How a component is named in the installation summary.
pub open spec fn component_label(c: Component) -> Seq<char> {
    match c {
        Component::WindowManager => "GTK/Window Manager theme"@,
        Component::Icons => "Icons"@,
        Component::Cursors => "Cursors"@,
        Component::Fonts => "Fonts"@,
    }
}

pub open spec fn present(c: Component, entries: Seq<String>) -> bool {
    match c {
        Component::WindowManager => any_entry(entries, |n: Seq<char>| is_wm_marker(n)),
        Component::Icons => any_entry(entries, |n: Seq<char>| is_icon_marker(n)),
        Component::Cursors => any_entry(entries, |n: Seq<char>| is_cursor_marker(n)),
        Component::Fonts => any_entry(entries, |n: Seq<char>| is_font_file(n)),
    }
}

pub open spec fn if_present(c: Component, entries: Seq<String>) -> Seq<Component> {
    if present(c, entries) {
        seq![c]
    } else {
        Seq::empty()
    }
}

/// The components found in a tree whose root holds `entries`, in
/// installation order.
pub open spec fn detected_components(entries: Seq<String>) -> Seq<Component> {
    if_present(Component::WindowManager, entries) + if_present(Component::Icons, entries)
        + if_present(Component::Cursors, entries) + if_present(Component::Fonts, entries)
}

/// The step that installs component `c` of theme `name`.
pub open spec fn step_for(c: Component, name: Seq<char>, entries: Seq<String>) -> StepView {
    (
        c,
        component_root(c),
        component_dest(c, name),
        if c == Component::Fonts {
            Some(names(entries).filter(|n: Seq<char>| is_font_file(n)))
        } else {
            None
        },
    )
}

pub open spec fn planned_steps(name: Seq<char>, entries: Seq<String>) -> Seq<StepView> {
    detected_components(entries).map_values(|c: Component| step_for(c, name, entries))
}

fn root_of(c: Component) -> (r: &'static str)
    ensures
        r@ == component_root(c),
{
    match c {
        Component::WindowManager => ".themes",
        Component::Icons => ".local/share/icons",
        Component::Cursors => ".local/share/icons",
        Component::Fonts => ".local/share/fonts",
    }
}

fn make_step(c: Component, name: &str, entries: &Vec<String>) -> (r: InstallStep)
    ensures
        r@ == step_for(c, name@, entries@),
{
    let parent: String = root_of(c).to_owned();
    let mut dest: String = root_of(c).to_owned();
    dest.append("/");
    dest.append(name);
    if c == Component::Cursors {
        dest.append("-cursors");
    }
    let files = if c == Component::Fonts {
        Some(font_files(entries))
    } else {
        None
    };
    InstallStep { component: c, parent, dest, files }
}

/// Plans the installation of theme `theme_name` from a tree whose root
/// holds the names `entries`. Fails with `BadManifest` when the name cannot
/// serve as a directory name.
pub fn plan_install(theme_name: &str, entries: &Vec<String>) -> (r: Result<
    Vec<InstallStep>,
    ThemeError,
>)
    ensures
        r is Ok <==> valid_theme_name(theme_name@),
        r is Err ==> r == Err::<Vec<InstallStep>, ThemeError>(ThemeError::BadManifest),
        r is Ok ==> steps_view(r->Ok_0@) == planned_steps(theme_name@, entries@),
{
    match check_theme_name(theme_name) {
        Ok(()) => {},
        Err(e) => {
            return Err(e);
        },
    }
    let mut steps: Vec<InstallStep> = Vec::new();
    if has_gtk_or_wm_components(entries) {
        steps.push(make_step(Component::WindowManager, theme_name, entries));
    }
    if has_icons(entries) {
        steps.push(make_step(Component::Icons, theme_name, entries));
    }
    if has_cursors(entries) {
        steps.push(make_step(Component::Cursors, theme_name, entries));
    }
    if has_fonts(entries) {
        steps.push(make_step(Component::Fonts, theme_name, entries));
    }
    proof {
        assert(steps_view(steps@) =~= planned_steps(theme_name@, entries@));
    }
    Ok(steps)
}

/// The list of installed components as the summary shows it.
pub open spec fn components_text(cs: Seq<Component>) -> Seq<char>
    decreases cs.len(),
{
    if cs.len() == 0 {
        "No compatible components found"@
    } else if cs.len() == 1 {
        component_label(cs[0])
    } else {
        components_text(cs.drop_last()) + ", "@ + component_label(cs.last())
    }
}

/// The message reported after installing `cs` of theme `name`.
pub open spec fn summary_text(name: Seq<char>, cs: Seq<Component>) -> Seq<char> {
    "Theme '"@ + name + "' installed successfully!\nComponents: "@ + components_text(cs)
}

fn label_of(c: Component) -> (r: &'static str)
    ensures
        r@ == component_label(c),
{
    match c {
        Component::WindowManager => "GTK/Window Manager theme",
        Component::Icons => "Icons",
        Component::Cursors => "Cursors",
        Component::Fonts => "Fonts",
    }
}

/// The human-readable summary of an installation.
pub fn install_summary(theme_name: &str, components: &Vec<Component>) -> (r: String)
    ensures
        r@ == summary_text(theme_name@, components@),
{
    let mut list: String;
    let n: usize = components.len();
    if n == 0 {
        list = "No compatible components found".to_owned();
    } else {
        list = label_of(components[0]).to_owned();
        let mut i: usize = 1;
        proof {
            assert(components@.subrange(0, 1).drop_last() =~= Seq::<Component>::empty());
        }
        while i < n
            invariant
                n == components@.len(),
                1 <= i <= n,
                list@ == components_text(components@.subrange(0, i as int)),
            decreases n - i,
        {
            list.append(", ");
            list.append(label_of(components[i]));
            proof {
                let s = components@.subrange(0, i + 1);
                assert(s.drop_last() =~= components@.subrange(0, i as int));
                assert(s.last() == components@[i as int]);
            }
            i = i + 1;
        }
        proof {
            assert(components@.subrange(0, n as int) =~= components@);
        }
    }
    let mut msg: String = "Theme '".to_owned();
    msg.append(theme_name);
    msg.append("' installed successfully!\nComponents: ");
    msg.append(list.as_str());
    msg
}

} // verus!
