//! Style lookup: the tables of a theme, by widget kind, under the overrides of
//! a slot.

use vstd::hash_map::StringHashMap;
use vstd::prelude::*;

verus! {

/// The resources of a host and the style table of each widget kind.
#[verifier::reject_recursive_types(S)]
pub struct Theme<R, S> {
    pub resources: R,
    default_widget_styles: StringHashMap<StringHashMap<S>>,
}

impl<R, S> Theme<R, S> {
    /// The resources that the theme was made with.
    pub closed spec fn held_resources(&self) -> R {
        self.resources
    }

    /// Whether the theme has a style table for this widget kind.
    pub closed spec fn has_style(&self, kind_id: Seq<char>) -> bool {
        self.default_widget_styles@.contains_key(kind_id)
    }

    /// The style table of a widget kind: its values by field name.
    pub closed spec fn style(&self, kind_id: Seq<char>) -> Map<Seq<char>, S> {
        self.default_widget_styles@[kind_id]@
    }

    /// A theme without any style table.
    pub fn new(resources: R) -> (theme: Theme<R, S>)
        ensures
            theme.held_resources() == resources,
            forall|kind_id: Seq<char>| !theme.has_style(kind_id),
    {
        Theme { resources, default_widget_styles: StringHashMap::new() }
    }

    /// The resources that the theme was made with.
    pub fn resources(&self) -> (resources: &R)
        ensures
            *resources == self.held_resources(),
    {
        &self.resources
    }

    /// Sets the style table of a widget kind, in place of the one it had.
    pub fn set_widget_style(&mut self, kind_id: &str, style: StringHashMap<S>)
        ensures
            final(self).held_resources() == old(self).held_resources(),
            final(self).has_style(kind_id@),
            final(self).style(kind_id@) == style@,
            forall|other: Seq<char>|
                other != kind_id@ ==> final(self).has_style(other) == old(self).has_style(other)
                    && final(self).style(other) == old(self).style(other),
    {
        self.default_widget_styles.insert(kind_id.to_owned(), style);
    }

    /// The style table of a widget kind that has one.
    pub fn get_widget_style(&self, kind_id: &str) -> (style: &StringHashMap<S>)
        requires
            self.has_style(kind_id@),
        ensures
            style@ == self.style(kind_id@),
    {
        self.default_widget_styles.get(kind_id).unwrap()
    }
}

/// The style of one slot: the table of its widget's kind, under the slot's
/// own overrides.
#[verifier::reject_recursive_types(S)]
pub struct SlotStyle<'a, R, S> {
    widget_kind_id: &'static str,
    theme: &'a Theme<R, S>,
    field_overrides: Option<&'a StringHashMap<S>>,
}

impl<'a, R, S> SlotStyle<'a, R, S> {
    /// The widget kind whose table is looked up.
    pub closed spec fn kind(&self) -> Seq<char> {
        self.widget_kind_id@
    }

    /// The theme whose tables are looked up.
    pub closed spec fn theme(&self) -> Theme<R, S> {
        *self.theme
    }

    /// The overrides of the slot, by field name; none where the slot has no
    /// override at all.
    pub closed spec fn overrides(&self) -> Map<Seq<char>, S> {
        match self.field_overrides {
            Some(overrides) => overrides@,
            None => Map::empty(),
        }
    }

    /// The value of a field: the slot's override where it has one, the value
    /// in the table of the widget kind otherwise.
    pub open spec fn resolve(&self, name: Seq<char>) -> Option<S> {
        if self.overrides().contains_key(name) {
            Some(self.overrides()[name])
        } else if self.theme().has_style(self.kind()) && self.theme().style(
            self.kind(),
        ).contains_key(name) {
            Some(self.theme().style(self.kind())[name])
        } else {
            None
        }
    }

    /// The style of a slot whose widget is of the given kind.
    pub fn new(
        widget_kind_id: &'static str,
        theme: &'a Theme<R, S>,
        field_overrides: Option<&'a StringHashMap<S>>,
    ) -> (style: SlotStyle<'a, R, S>)
        ensures
            style.kind() == widget_kind_id@,
            style.theme() == *theme,
            style.overrides() == match field_overrides {
                Some(overrides) => overrides@,
                None => Map::<Seq<char>, S>::empty(),
            },
    {
        SlotStyle { widget_kind_id, theme, field_overrides }
    }

    /// The value of a field that an override or the table of the kind gives.
    pub fn get_field(&self, name: &str) -> (value: &S)
        requires
            self.resolve(name@) is Some,
        ensures
            self.resolve(name@) == Some(*value),
    {
        self.get_field_opt(name).unwrap()
    }

    /// The value of a field, if an override or the table of the kind gives
    /// one. The table is consulted only where the slot does not override the
    /// field, and then the theme must have a table for the kind.
    pub fn get_field_opt(&self, name: &str) -> (value: Option<&S>)
        requires
            self.overrides().contains_key(name@) || self.theme().has_style(self.kind()),
        ensures
            match value {
                Some(v) => self.resolve(name@) == Some(*v),
                None => self.resolve(name@) is None,
            },
    {
        let overridden = match self.field_overrides {
            Some(overrides) => overrides.get(name),
            None => None,
        };
        match overridden {
            Some(value) => Some(value),
            None => self.theme.get_widget_style(self.widget_kind_id).get(name),
        }
    }
}

} // verus!
