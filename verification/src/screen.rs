use vstd::prelude::*;
use crate::text::{chars_of, split, split_chars, string_views, strings_of};

verus! {

/// What the terminal interface's loop receives: a key, or a tick of time.
pub enum Event<I> {
    Input(I),
    Tick,
}

/// The keys that the interface tells apart.
#[derive(Debug, Clone, Copy, PartialEq, Eq, Structural)]
pub enum Key {
    Char(char),
    Up,
    Down,
    Left,
    Right,
    Other,
}

/// The item selected after moving down from `sel` among `len` items.
pub open spec fn next_selected(sel: int, len: int) -> int {
    if sel < len - 1 {
        sel + 1
    } else {
        sel
    }
}

/// The item selected after moving up from `sel`.
pub open spec fn previous_selected(sel: int) -> int {
    if sel > 0 {
        sel - 1
    } else {
        sel
    }
}

/// A list with a selected item.
pub struct ListState<I> {
    pub items: Vec<I>,
    pub selected: usize,
}

impl<I> ListState<I> {
    /// A list with its first item selected.
    pub fn new(items: Vec<I>) -> (l: ListState<I>)
        ensures
            l.items@ == items@,
            l.selected == 0,
    {
        ListState { items, selected: 0 }
    }

    /// Selects the item before the selected one, if any.
    pub fn select_previous(&mut self)
        ensures
            final(self).items@ == old(self).items@,
            final(self).selected == previous_selected(old(self).selected as int),
    {
        if self.selected > 0 {
            self.selected -= 1;
        }
    }

    /// Selects the item after the selected one, unless the last is selected.
    pub fn select_next(&mut self)
        requires
            old(self).items.len() > 0,
        ensures
            final(self).items@ == old(self).items@,
            final(self).selected == next_selected(
                old(self).selected as int,
                old(self).items.len() as int,
            ),
    {
        if self.selected < self.items.len() - 1 {
            self.selected += 1
        }
    }
}

/// Tabs with a selected one.
pub struct TabsState {
    pub titles: Vec<String>,
    pub index: usize,
}

/// The tab after `i` among `n`, going round.
pub open spec fn next_index(i: int, n: int) -> int {
    (i + 1) % n
}

/// The tab before `i` among `n`, going round.
pub open spec fn previous_index(i: int, n: int) -> int {
    if i > 0 {
        i - 1
    } else {
        n - 1
    }
}

impl TabsState {
    /// Tabs with the first selected.
    pub fn new(titles: Vec<String>) -> (t: TabsState)
        ensures
            t.titles@ == titles@,
            t.index == 0,
    {
        TabsState { titles, index: 0 }
    }

    /// Selects the next tab, going round to the first.
    pub fn next(&mut self)
        requires
            old(self).titles.len() > 0,
            old(self).index < usize::MAX,
        ensures
            final(self).titles@ == old(self).titles@,
            final(self).index == next_index(old(self).index as int, old(self).titles.len() as int),
    {
        self.index = (self.index + 1) % self.titles.len();
    }

    /// Selects the previous tab, going round to the last.
    pub fn previous(&mut self)
        requires
            old(self).index > 0 || old(self).titles.len() > 0,
        ensures
            final(self).titles@ == old(self).titles@,
            final(self).index == previous_index(
                old(self).index as int,
                old(self).titles.len() as int,
            ),
    {
        if self.index > 0 {
            self.index -= 1;
        } else {
            self.index = self.titles.len() - 1;
        }
    }
}

/// Going to the next tab and back, or back and then on, returns to the
/// selected tab; both keep the selection among the tabs.
pub proof fn law_tabs_round_trip(i: int, n: int)
    requires
        0 <= i < n,
    ensures
        0 <= next_index(i, n) < n,
        0 <= previous_index(i, n) < n,
        previous_index(next_index(i, n), n) == i,
        next_index(previous_index(i, n), n) == i,
{
    if i + 1 < n {
        vstd::arithmetic::div_mod::lemma_small_mod((i + 1) as nat, n as nat);
    } else {
        vstd::arithmetic::div_mod::lemma_mod_self_0(n);
    }
    if i > 0 {
        vstd::arithmetic::div_mod::lemma_small_mod(i as nat, n as nat);
    } else {
        vstd::arithmetic::div_mod::lemma_mod_self_0(n);
    }
}

/// Moving the selection keeps it among the items; moving down and then up
/// returns to the selected item where it is not the last, and moving up
/// and then down returns where it is not the first.
pub proof fn law_list_round_trip(sel: int, len: int)
    requires
        0 <= sel < len,
    ensures
        0 <= next_selected(sel, len) < len,
        0 <= previous_selected(sel) < len,
        sel < len - 1 ==> previous_selected(next_selected(sel, len)) == sel,
        sel > 0 ==> next_selected(previous_selected(sel), len) == sel,
{
}

/// The terminal interface's state.
pub struct App {
    pub title: String,
    pub should_quit: bool,
    pub tabs: TabsState,
    pub tasks: ListState<String>,
}

/// The titles of the interface's tabs.
pub open spec fn tab_titles() -> Seq<Seq<char>> {
    seq!["View"@, "Remove"@, "Add"@]
}

impl App {
    /// The state's invariant: there are tabs and keys, and the selected tab
    /// is one of them.
    pub open spec fn wf(&self) -> bool {
        &&& self.tabs.titles.len() > 0
        &&& self.tabs.index < self.tabs.titles.len()
        &&& self.tasks.items.len() > 0
    }

    /// The interface for the daemon's listing of keys, one per line: the
    /// first tab and the first key selected.
    pub fn new(title: &str, listing: &str) -> (app: App)
        ensures
            app.wf(),
            app.title@ == title@,
            !app.should_quit,
            string_views(app.tabs.titles@) == tab_titles(),
            app.tabs.index == 0,
            string_views(app.tasks.items@) == split(listing@, seq!['\n']),
            app.tasks.selected == 0,
    {
        let chars = chars_of(listing);
        let nl = vec!['\n'];
        assert(nl@ =~= seq!['\n']);
        let pieces = split_chars(&chars, &nl);
        proof {
            crate::text::lemma_split_scan_nonempty(listing@, seq!['\n'], 0, 0);
        }
        let values_list = strings_of(&pieces);
        let mut titles: Vec<String> = Vec::new();
        titles.push(String::from_str("View"));
        titles.push(String::from_str("Remove"));
        titles.push(String::from_str("Add"));
        assert(string_views(titles@) =~= tab_titles());
        App {
            title: String::from_str(title),
            should_quit: false,
            tabs: TabsState::new(titles),
            tasks: ListState::new(values_list),
        }
    }

    /// Selects the key above.
    pub fn on_up(&mut self)
        ensures
            event_effect(*old(self), *final(self), Event::Input(Key::Up)),
            old(self).wf() ==> final(self).wf(),
            final(self).title == old(self).title,
            final(self).should_quit == old(self).should_quit,
            final(self).tabs == old(self).tabs,
            final(self).tasks.items@ == old(self).tasks.items@,
            final(self).tasks.selected == previous_selected(old(self).tasks.selected as int),
    {
        self.tasks.select_previous();
    }

    /// Selects the key below.
    pub fn on_down(&mut self)
        requires
            old(self).tasks.items.len() > 0,
        ensures
            event_effect(*old(self), *final(self), Event::Input(Key::Down)),
            old(self).wf() ==> final(self).wf(),
            final(self).title == old(self).title,
            final(self).should_quit == old(self).should_quit,
            final(self).tabs == old(self).tabs,
            final(self).tasks.items@ == old(self).tasks.items@,
            final(self).tasks.selected == next_selected(
                old(self).tasks.selected as int,
                old(self).tasks.items.len() as int,
            ),
    {
        self.tasks.select_next();
    }

    /// Selects the next tab.
    pub fn on_right(&mut self)
        requires
            old(self).tabs.titles.len() > 0,
            old(self).tabs.index < usize::MAX,
        ensures
            event_effect(*old(self), *final(self), Event::Input(Key::Right)),
            old(self).wf() ==> final(self).wf(),
            final(self).title == old(self).title,
            final(self).should_quit == old(self).should_quit,
            final(self).tasks == old(self).tasks,
            final(self).tabs.titles@ == old(self).tabs.titles@,
            final(self).tabs.index == next_index(
                old(self).tabs.index as int,
                old(self).tabs.titles.len() as int,
            ),
    {
        self.tabs.next();
        proof {
            if old(self).wf() {
                law_tabs_round_trip(
                    old(self).tabs.index as int,
                    old(self).tabs.titles.len() as int,
                );
            }
        }
    }

    /// Selects the previous tab.
    pub fn on_left(&mut self)
        requires
            old(self).tabs.index > 0 || old(self).tabs.titles.len() > 0,
        ensures
            event_effect(*old(self), *final(self), Event::Input(Key::Left)),
            old(self).wf() ==> final(self).wf(),
            final(self).title == old(self).title,
            final(self).should_quit == old(self).should_quit,
            final(self).tasks == old(self).tasks,
            final(self).tabs.titles@ == old(self).tabs.titles@,
            final(self).tabs.index == previous_index(
                old(self).tabs.index as int,
                old(self).tabs.titles.len() as int,
            ),
    {
        self.tabs.previous();
        proof {
            if old(self).wf() {
                law_tabs_round_trip(
                    old(self).tabs.index as int,
                    old(self).tabs.titles.len() as int,
                );
            }
        }
    }

    /// The interface's keys: 'q' quits, 'j' and 'k' move down and up the
    /// keys, 'h' and 'l' move left and right through the tabs.
    pub fn on_key(&mut self, c: char)
        requires
            key_allowed(*old(self), c),
        ensures
            event_effect(*old(self), *final(self), Event::Input(Key::Char(c))),
            old(self).wf() ==> final(self).wf(),
            key_effect(*old(self), *final(self), c),
    {
        match c {
            'q' => {
                self.should_quit = true;
            },
            'j' => {
                self.on_down();
            },
            'k' => {
                self.on_up();
            },
            'h' => {
                self.on_left();
            },
            'l' => {
                self.on_right();
            },
            _ => {},
        }
    }

    /// Nothing happens on a tick.
    pub fn on_tick(&mut self)
        ensures
            event_effect(*old(self), *final(self), Event::Tick),
            *final(self) == *old(self),
    {
    }

    /// What the interface's loop does with an event: keys as `on_key` says,
    /// the arrow keys as the moves they name, ticks as `on_tick`.
    pub fn on_event(&mut self, event: Event<Key>)
        requires
            event_allowed(*old(self), event),
        ensures
            old(self).wf() ==> final(self).wf(),
            event_effect(*old(self), *final(self), event),
    {
        match event {
            Event::Input(key) => match key {
                Key::Char(c) => self.on_key(c),
                Key::Up => self.on_up(),
                Key::Down => self.on_down(),
                Key::Left => self.on_left(),
                Key::Right => self.on_right(),
                Key::Other => {},
            },
            Event::Tick => self.on_tick(),
        }
    }
}

/// The keys that can be handled in this state: moving down needs keys,
/// moving through the tabs needs tabs.
pub open spec fn key_allowed(a: App, c: char) -> bool {
    &&& c == 'j' ==> a.tasks.items.len() > 0
    &&& c == 'l' ==> a.tabs.titles.len() > 0 && a.tabs.index < usize::MAX
    &&& c == 'h' ==> a.tabs.index > 0 || a.tabs.titles.len() > 0
}

/// The events that can be handled in this state.
pub open spec fn event_allowed(a: App, e: Event<Key>) -> bool {
    match e {
        Event::Input(Key::Char(c)) => key_allowed(a, c),
        Event::Input(Key::Down) => a.tasks.items.len() > 0,
        Event::Input(Key::Right) => a.tabs.titles.len() > 0 && a.tabs.index < usize::MAX,
        Event::Input(Key::Left) => a.tabs.index > 0 || a.tabs.titles.len() > 0,
        _ => true,
    }
}

/// A well-formed state can handle every event.
pub proof fn lemma_wf_allows(a: App, e: Event<Key>)
    requires
        a.wf(),
    ensures
        event_allowed(a, e),
{
}

/// The key list moved up: the selection one item higher, where it can be.
pub open spec fn moved_up(a: App, b: App) -> bool {
    &&& b.title == a.title
    &&& b.should_quit == a.should_quit
    &&& b.tabs == a.tabs
    &&& b.tasks.items@ == a.tasks.items@
    &&& b.tasks.selected == previous_selected(a.tasks.selected as int)
}

/// The key list moved down: the selection one item lower, where it can be.
pub open spec fn moved_down(a: App, b: App) -> bool {
    &&& b.title == a.title
    &&& b.should_quit == a.should_quit
    &&& b.tabs == a.tabs
    &&& b.tasks.items@ == a.tasks.items@
    &&& b.tasks.selected == next_selected(a.tasks.selected as int, a.tasks.items.len() as int)
}

/// The tabs moved by one to the right or to the left.
pub open spec fn moved_tab(a: App, b: App, right: bool) -> bool {
    &&& b.title == a.title
    &&& b.should_quit == a.should_quit
    &&& b.tasks == a.tasks
    &&& b.tabs.titles@ == a.tabs.titles@
    &&& b.tabs.index == if right {
        next_index(a.tabs.index as int, a.tabs.titles.len() as int)
    } else {
        previous_index(a.tabs.index as int, a.tabs.titles.len() as int)
    }
}

/// What a character key does to the interface.
pub open spec fn key_effect(a: App, b: App, c: char) -> bool {
    if c == 'q' {
        b == App { should_quit: true, ..a }
    } else if c == 'j' {
        moved_down(a, b)
    } else if c == 'k' {
        moved_up(a, b)
    } else if c == 'h' {
        moved_tab(a, b, false)
    } else if c == 'l' {
        moved_tab(a, b, true)
    } else {
        b == a
    }
}

/// What an event does to the interface.
pub open spec fn event_effect(a: App, b: App, e: Event<Key>) -> bool {
    match e {
        Event::Input(Key::Char(c)) => key_effect(a, b, c),
        Event::Input(Key::Up) => moved_up(a, b),
        Event::Input(Key::Down) => moved_down(a, b),
        Event::Input(Key::Left) => moved_tab(a, b, false),
        Event::Input(Key::Right) => moved_tab(a, b, true),
        Event::Input(Key::Other) => b == a,
        Event::Tick => b == a,
    }
}

/// Once the interface is to quit, no event undoes it.
pub proof fn law_quit_stays_step(a: App, b: App, e: Event<Key>)
    requires
        a.should_quit,
        event_effect(a, b, e),
    ensures
        b.should_quit,
{
}

/// The states an interface passes through as it handles the events, one
/// after another.
pub open spec fn run_of(states: Seq<App>, events: Seq<Event<Key>>) -> bool {
    &&& states.len() == events.len() + 1
    &&& forall|i: int|
        0 <= i < events.len() ==> event_effect(states[i], states[i + 1], #[trigger] events[i])
}

/// Once the interface is to quit, it stays so through any run of events,
/// and so through any sequence of calls of `on_key`, `on_up`, `on_down`,
/// `on_left`, `on_right` and `on_tick`: each call is the step of its event.
pub proof fn law_quit_stays(states: Seq<App>, events: Seq<Event<Key>>)
    requires
        run_of(states, events),
        states[0].should_quit,
    ensures
        forall|i: int| 0 <= i < states.len() ==> (#[trigger] states[i]).should_quit,
    decreases events.len(),
{
    if events.len() > 0 {
        let s2 = states.drop_last();
        let e2 = events.drop_last();
        assert forall|i: int| 0 <= i < e2.len() implies event_effect(
            s2[i],
            s2[i + 1],
            #[trigger] e2[i],
        ) by {
            assert(e2[i] == events[i]);
            assert(s2[i] == states[i] && s2[i + 1] == states[i + 1]);
        }
        law_quit_stays(s2, e2);
        let n = events.len() - 1;
        assert(s2[n] == states[n]);
        assert(s2[n].should_quit);
        law_quit_stays_step(states[n], states[n + 1], events[n]);
        assert forall|i: int| 0 <= i < states.len() implies (#[trigger] states[i]).should_quit by {
            if i < s2.len() {
                assert(s2[i] == states[i]);
            }
        }
    }
}

/// What the body of the interface shows.
pub enum Body {
    /// The keys, with one selected, under a block title.
    KeyList { title: String, items: Vec<String>, selected: usize },
    /// Nothing.
    Blank,
}

/// What the interface draws: a block with the title around the tabs, the
/// selected tab, and the body below.
pub struct Frame {
    pub title: String,
    pub tab_titles: Vec<String>,
    pub selected_tab: usize,
    pub body: Body,
}

/// What to draw for the interface's state: the first tab lists the keys,
/// the other tabs are blank.
pub fn draw(app: &App) -> (f: Frame)
    ensures
        f.title@ == app.title@,
        string_views(f.tab_titles@) == string_views(app.tabs.titles@),
        f.selected_tab == app.tabs.index,
        app.tabs.index == 0 ==> (f.body matches Body::KeyList { title, items, selected } && title@
            == "Key list"@ && string_views(items@) == string_views(app.tasks.items@) && selected
            == app.tasks.selected),
        app.tabs.index != 0 ==> f.body is Blank,
{
    let body = if app.tabs.index == 0 {
        Body::KeyList {
            title: String::from_str("Key list"),
            items: clone_strings(&app.tasks.items),
            selected: app.tasks.selected,
        }
    } else {
        Body::Blank
    };
    Frame {
        title: app.title.clone(),
        tab_titles: clone_strings(&app.tabs.titles),
        selected_tab: app.tabs.index,
        body,
    }
}

/// A copy of the strings.
fn clone_strings(v: &Vec<String>) -> (out: Vec<String>)
    ensures
        string_views(out@) == string_views(v@),
{
    let mut out: Vec<String> = Vec::new();
    let mut i: usize = 0;
    while i < v.len()
        invariant
            i <= v.len(),
            string_views(out@) == string_views(v@).subrange(0, i as int),
        decreases v.len() - i,
    {
        let ghost before = string_views(out@);
        out.push(v[i].clone());
        assert(string_views(out@) =~= before.push(v@[i as int]@));
        assert(string_views(v@).subrange(0, i + 1) =~= string_views(v@).subrange(0, i as int).push(
            v@[i as int]@,
        ));
        i = i + 1;
    }
    assert(string_views(v@).subrange(0, i as int) =~= string_views(v@));
    out
}

} // verus!
