//! Playback-source selection. A missing explicit choice never captures
//! another device.

use vstd::prelude::*;

verus! {

/// One playback endpoint as reported by discovery.
#[derive(Clone, Debug, PartialEq, Eq)]
pub struct AudioSource {
    pub id: String,
    pub name: String,
    pub is_default: bool,
}

/// The last successfully discovered catalogue of playback endpoints.
#[derive(Clone)]
pub struct AudioSources {
    pub available: Vec<AudioSource>,
}

/// The selection as plain text: `None` follows the system default.
pub open spec fn selection_view(selected: Option<&str>) -> Option<Seq<char>> {
    match selected {
        Some(id) => Some(id@),
        None => None,
    }
}

/// Whether `source` is the one a selection designates: an explicit id
/// designates exactly the endpoint with that id; no id designates the
/// system default endpoint.
pub open spec fn designates(selection: Option<Seq<char>>, source: AudioSource) -> bool {
    match selection {
        Some(id) => source.id@ == id,
        None => source.is_default,
    }
}

/// Index of the first endpoint in `sources` that the selection designates.
pub open spec fn first_designated(sources: Seq<AudioSource>, selection: Option<Seq<char>>) -> Option<int>
    decreases sources.len(),
{
    if sources.len() == 0 {
        None
    } else if designates(selection, sources[0]) {
        Some(0)
    } else {
        match first_designated(sources.drop_first(), selection) {
            Some(i) => Some(i + 1),
            None => None,
        }
    }
}

/// The endpoint a selection resolves to, if any.
pub open spec fn resolved(sources: Seq<AudioSource>, selection: Option<Seq<char>>) -> Option<AudioSource> {
    match first_designated(sources, selection) {
        Some(i) => Some(sources[i]),
        None => None,
    }
}

/// `first_designated` finds exactly the first designated endpoint.
pub proof fn lemma_first_designated(sources: Seq<AudioSource>, selection: Option<Seq<char>>)
    ensures
        match first_designated(sources, selection) {
            Some(i) => {
                &&& 0 <= i < sources.len()
                &&& designates(selection, sources[i])
                &&& forall|j: int| 0 <= j < i ==> !designates(selection, #[trigger] sources[j])
            },
            None => forall|j: int| 0 <= j < sources.len() ==> !designates(selection, #[trigger] sources[j]),
        },
    decreases sources.len(),
{
    if sources.len() > 0 && !designates(selection, sources[0]) {
        lemma_first_designated(sources.drop_first(), selection);
        assert forall|j: int| 1 <= j < sources.len() implies sources[j] == sources.drop_first()[j - 1] by {}
    }
}

/// A missing explicit choice never captures another device: an explicit id
/// resolves only to an endpoint with that very id, and to nothing when no
/// endpoint has it.
pub proof fn law_explicit_choice_never_falls_back(sources: Seq<AudioSource>, id: Seq<char>)
    ensures
        resolved(sources, Some(id)) matches Some(s) ==> s.id@ == id,
        (forall|j: int| 0 <= j < sources.len() ==> (#[trigger] sources[j]).id@ != id) ==> resolved(
            sources,
            Some(id),
        ) is None,
{
    lemma_first_designated(sources, Some(id));
}

/// The label of an explicit choice that is unavailable does not depend on
/// the chosen id: it is one fixed message for every id.
pub proof fn law_unavailable_label_hides_the_id(sources: Seq<AudioSource>, id: Seq<char>)
    requires
        resolved(sources, Some(id)) is None,
    ensures
        label_text(true, resolved(sources, Some(id))) == "Selected device unavailable \u{2014} waiting to reconnect"@,
{
}

/// An explicit choice that resolves to an endpoint is labelled with exactly
/// that endpoint's name, whether or not it is also the system default.
pub proof fn law_explicit_label_is_the_endpoint_name(sources: Seq<AudioSource>, id: Seq<char>)
    ensures
        resolved(sources, Some(id)) matches Some(s) ==> label_text(true, resolved(sources, Some(id)))
            == s.name@,
        forall|s: AudioSource| #[trigger] label_text(true, Some(s)) == s.name@,
{
}

impl Default for AudioSources {
    fn default() -> (s: Self)
        ensures
            s.available@.len() == 0,
    {
        AudioSources { available: Vec::new() }
    }
}

impl AudioSources {
    /// A failed discovery says nothing about endpoint availability: the
    /// catalogue is replaced only on success, including by an empty list.
    pub fn apply_discovery<E>(&mut self, discovered: Result<Vec<AudioSource>, E>) -> (r: Result<(), E>)
        ensures
            match discovered {
                Ok(found) => r is Ok && final(self).available@ == found@,
                Err(e) => r == Err::<(), E>(e) && final(self).available@ == old(self).available@,
            },
    {
        match discovered {
            Ok(found) => {
                self.available = found;
                Ok(())
            },
            Err(e) => Err(e),
        }
    }

    /// The first endpoint the selection designates: the endpoint with the
    /// chosen id, or the system default when nothing is chosen.
    pub fn resolve(&self, selected: Option<&str>) -> (r: Option<&AudioSource>)
        ensures
            r == match resolved(self.available@, selection_view(selected)) {
                Some(s) => Some(&s),
                None => None::<&AudioSource>,
            },
            r matches Some(s) ==> designates(selection_view(selected), *s),
    {
        let wanted: Option<String> = match selected {
            Some(id) => Some(id.to_owned()),
            None => None,
        };
        let mut i: usize = 0;
        while i < self.available.len()
            invariant
                0 <= i <= self.available@.len(),
                wanted matches Some(w) ==> selection_view(selected) == Some(w@),
                wanted is None ==> selected is None,
                forall|j: int| 0 <= j < i ==> !designates(selection_view(selected), #[trigger] self.available@[j]),
            decreases self.available@.len() - i,
        {
            let source = &self.available[i];
            let hit = match &wanted {
                Some(w) => source.id == *w,
                None => source.is_default,
            };
            if hit {
                proof {
                    lemma_first_designated(self.available@, selection_view(selected));
                }
                assert(first_designated(self.available@, selection_view(selected)) == Some(i as int));
                return Some(source);
            }
            i = i + 1;
        }
        proof {
            lemma_first_designated(self.available@, selection_view(selected));
        }
        None
    }

    /// The text shown for a selection. An explicit choice that is not
    /// available never names another endpoint, nor shows the chosen id.
    pub fn label(&self, selected: Option<&str>) -> (text: String)
        ensures
            text@ == label_text(selected is Some, resolved(self.available@, selection_view(selected))),
            selected is Some && resolved(self.available@, selection_view(selected)) is Some ==> text@
                == resolved(self.available@, selection_view(selected))->Some_0.name@,
    {
        let found = self.resolve(selected);
        match (selected, found) {
            (None, Some(source)) => {
                let mut text = String::from_str("Follow Windows default \u{2014} ");
                text.append(source.name.as_str());
                text
            },
            (None, None) => String::from_str("Follow Windows default \u{2014} waiting for audio device"),
            (Some(_), Some(source)) => source.name.clone(),
            (Some(_), None) => String::from_str("Selected device unavailable \u{2014} waiting to reconnect"),
        }
    }
}

/// The label for a selection (explicit or not) and the endpoint it resolved to.
pub open spec fn label_text(explicit: bool, found: Option<AudioSource>) -> Seq<char> {
    match (explicit, found) {
        (false, Some(source)) => "Follow Windows default \u{2014} "@ + source.name@,
        (false, None) => "Follow Windows default \u{2014} waiting for audio device"@,
        (true, Some(source)) => source.name@,
        (true, None) => "Selected device unavailable \u{2014} waiting to reconnect"@,
    }
}

} // verus!
