//! The catalog of launchable entries.

use vstd::prelude::*;

verus! {

/// Where the icon of an entry is found. The path is only handed on to whoever
/// draws the entry.
#[derive(Debug)]
pub enum Icon {
    /// A vector image.
    Svg(String),
    /// A raster image.
    Image(String),
}

impl Clone for Icon {
    fn clone(&self) -> (copy: Self)
        ensures
            copy == *self,
    {
        match self {
            Icon::Svg(path) => Icon::Svg(path.clone()),
            Icon::Image(path) => Icon::Image(path.clone()),
        }
    }
}

/// One launchable entry.
#[derive(Debug)]
pub struct Application {
    /// The name shown to the user, and matched against the query.
    pub name: String,
    /// The command line that starts the application.
    pub command: String,
    /// The icon drawn beside the name.
    pub icon: Icon,
}

impl Clone for Application {
    fn clone(&self) -> (copy: Self)
        ensures
            copy == *self,
    {
        Application { name: self.name.clone(), command: self.command.clone(), icon: self.icon.clone() }
    }
}

/// The characters `.svg`.
pub open spec fn svg_suffix() -> Seq<char> {
    seq!['.', 's', 'v', 'g']
}

/// Whether `path` ends in `.svg`.
pub open spec fn names_svg(path: Seq<char>) -> bool {
    path.len() >= 4 && path.subrange(path.len() - 4, path.len() as int) == svg_suffix()
}

/// The icon that stands for the file at `path`, or for `fallback` where
/// `path` is empty.
pub open spec fn icon_for(path: String, fallback: String) -> Icon {
    if path@.len() == 0 {
        Icon::Svg(fallback)
    } else if names_svg(path@) {
        Icon::Svg(path)
    } else {
        Icon::Image(path)
    }
}

/// Tells whether `path` ends in `.svg`.
pub fn ends_with_svg(path: &str) -> (yes: bool)
    ensures
        yes == names_svg(path@),
{
    let n: usize = path.unicode_len();
    if n < 4 {
        return false;
    }
    let yes = path.get_char(n - 4) == '.' && path.get_char(n - 3) == 's' && path.get_char(n - 2)
        == 'v' && path.get_char(n - 1) == 'g';
    proof {
        let tail = path@.subrange(n - 4, n as int);
        if yes {
            assert(tail =~= svg_suffix());
        } else {
            assert(tail[0] == path@[n - 4]);
            assert(tail[1] == path@[n - 3]);
            assert(tail[2] == path@[n - 2]);
            assert(tail[3] == path@[n - 1]);
        }
    }
    yes
}

impl Icon {
    /// Chooses the icon of an entry from the path that the icon lookup gave.
    ///
    /// An empty `path` stands for "nothing found": the entry then gets the
    /// `fallback` icon, which is a vector image. Any other path is a vector
    /// image where it ends in `.svg` and a raster image where it does not.
    pub fn from_lookup(path: String, fallback: &String) -> (icon: Icon)
        ensures
            icon == icon_for(path, *fallback),
    {
        if path.as_str().is_empty() {
            Icon::Svg(fallback.clone())
        } else if ends_with_svg(path.as_str()) {
            Icon::Svg(path)
        } else {
            Icon::Image(path)
        }
    }

    /// The path of the icon's file.
    pub fn path(&self) -> (path: &String)
        ensures
            *path == match *self {
                Icon::Svg(p) => p,
                Icon::Image(p) => p,
            },
    {
        match self {
            Icon::Svg(p) => p,
            Icon::Image(p) => p,
        }
    }

    /// Whether the icon is a vector image.
    pub fn is_svg(&self) -> (yes: bool)
        ensures
            yes == (*self is Svg),
    {
        match self {
            Icon::Svg(_) => true,
            Icon::Image(_) => false,
        }
    }
}

/// Whether no entry of `entries` has the launch command `command`.
pub open spec fn command_is_new(entries: Seq<Application>, command: Seq<char>) -> bool {
    forall|k: int| 0 <= k < entries.len() ==> (#[trigger] entries[k]).command@ != command
}

/// Whether a catalog that holds `entries` takes one more entry with this name
/// and launch command: both are non-empty, and the command is not in the
/// catalog yet.
pub open spec fn admits(entries: Seq<Application>, name: Seq<char>, command: Seq<char>) -> bool {
    name.len() > 0 && command.len() > 0 && command_is_new(entries, command)
}

/// What the catalog holds after `app` was offered to it.
pub open spec fn offer(entries: Seq<Application>, app: Application) -> Seq<Application> {
    if admits(entries, app.name@, app.command@) {
        entries.push(app)
    } else {
        entries
    }
}

/// What the catalog holds after the entries of `apps` were offered to an
/// empty catalog, one after the other.
pub open spec fn load(apps: Seq<Application>) -> Seq<Application>
    decreases apps.len(),
{
    if apps.len() == 0 {
        Seq::empty()
    } else {
        offer(load(apps.drop_last()), apps.last())
    }
}

/// Whether no two entries share a launch command.
pub open spec fn distinct_commands(entries: Seq<Application>) -> bool {
    forall|i: int, j: int|
        0 <= i < j < entries.len() ==> (#[trigger] entries[i]).command@ != (#[trigger] entries[j]).command@
}

/// Whether every entry has a name and a launch command.
pub open spec fn all_launchable(entries: Seq<Application>) -> bool {
    forall|i: int|
        0 <= i < entries.len() ==> (#[trigger] entries[i]).name@.len() > 0 && entries[i].command@.len()
            > 0
}

/// The launchable entries of a session, in the order in which they were
/// admitted. No two of them share a launch command, and each has a name and
/// a launch command.
pub struct Catalog {
    entries: Vec<Application>,
}

impl View for Catalog {
    type V = Seq<Application>;

    closed spec fn view(&self) -> Seq<Application> {
        self.entries@
    }
}

impl Catalog {
    #[verifier::type_invariant]
    spec fn sound(&self) -> bool {
        &&& distinct_commands(self.entries@)
        &&& all_launchable(self.entries@)
    }

    /// A catalog without entries.
    pub fn new() -> (catalog: Catalog)
        ensures
            catalog@ == Seq::<Application>::empty(),
    {
        Catalog { entries: Vec::new() }
    }

    /// Tells whether an entry with this name and launch command would be
    /// admitted.
    pub fn admits(&self, name: &String, command: &String) -> (yes: bool)
        ensures
            yes == admits(self@, name@, command@),
    {
        if name.as_str().is_empty() || command.as_str().is_empty() {
            return false;
        }
        let mut k: usize = 0;
        while k < self.entries.len()
            invariant
                0 <= k <= self.entries.len(),
                forall|m: int| 0 <= m < k ==> (#[trigger] self.entries@[m]).command@ != command@,
            decreases self.entries.len() - k,
        {
            if self.entries[k].command == *command {
                return false;
            }
            k += 1;
        }
        true
    }

    /// Offers an entry to the catalog. It is appended where the catalog
    /// admits it and dropped where it does not; the result tells which.
    pub fn push(&mut self, app: Application) -> (added: bool)
        ensures
            added == admits(old(self)@, app.name@, app.command@),
            final(self)@ == offer(old(self)@, app),
            distinct_commands(final(self)@),
            all_launchable(final(self)@),
    {
        proof {
            use_type_invariant(&*self);
        }
        if self.admits(&app.name, &app.command) {
            let mut entries: Vec<Application> = Vec::new();
            core::mem::swap(&mut self.entries, &mut entries);
            entries.push(app);
            self.entries = entries;
            true
        } else {
            false
        }
    }

    /// The catalog of the entries of `apps` that are admitted when they are
    /// offered in turn.
    pub fn from_applications(apps: &Vec<Application>) -> (catalog: Catalog)
        ensures
            catalog@ == load(apps@),
            distinct_commands(catalog@),
            all_launchable(catalog@),
    {
        let mut catalog = Catalog::new();
        let mut i: usize = 0;
        while i < apps.len()
            invariant
                0 <= i <= apps.len(),
                catalog@ == load(apps@.take(i as int)),
                distinct_commands(catalog@),
                all_launchable(catalog@),
            decreases apps.len() - i,
        {
            proof {
                assert(apps@.take(i + 1).drop_last() =~= apps@.take(i as int));
            }
            catalog.push(apps[i].clone());
            i += 1;
        }
        proof {
            assert(apps@.take(apps.len() as int) =~= apps@);
        }
        catalog
    }

    /// The number of entries.
    pub fn len(&self) -> (n: usize)
        ensures
            n == self@.len(),
    {
        self.entries.len()
    }

    /// The entries, in the order in which they were admitted.
    pub fn entries(&self) -> (entries: &Vec<Application>)
        ensures
            entries@ == self@,
            distinct_commands(self@),
            all_launchable(self@),
    {
        proof {
            use_type_invariant(self);
        }
        &self.entries
    }
}

/// Offering entries one after the other never leaves two entries with one
/// launch command in the catalog, nor an entry without a name or without a
/// launch command, whatever was offered.
pub proof fn lemma_load_is_sound(apps: Seq<Application>)
    ensures
        distinct_commands(load(apps)),
        all_launchable(load(apps)),
    decreases apps.len(),
{
    if apps.len() > 0 {
        lemma_load_is_sound(apps.drop_last());
    }
}

} // verus!
