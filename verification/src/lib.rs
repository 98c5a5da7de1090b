use vstd::prelude::*;

pub mod strutil;
pub mod unicode;
pub mod source;
pub mod chart;
pub mod categorize;
pub mod render;

verus! {

use crate::source::EmojiError;
use crate::source::EmojiLiteral;
use crate::source::LitView;
use crate::source::json_string_map_of;
use crate::source::entry_bad;
use crate::source::classified_matches;
use crate::chart::chart_nodes;
use crate::chart::events_of;
use crate::categorize::Categorized;
use crate::categorize::attach_custom;
use crate::categorize::chart_error;
use crate::categorize::custom_index;
use crate::categorize::key_index;
use crate::categorize::run;

/// The whole data pipeline short of the network: classify the shortcode
/// source, stream the chart events, and join the two into the tree.
///
/// Fails with the malformed-source errors exactly as the source adapter
/// does; fails with the malformed-chart error exactly when, the source
/// being sound, a subcategory heading precedes every category heading in
/// the chart's event stream; otherwise returns the fold of the chart's
/// events over the classified entries' indexes, custom bucket last.
pub fn get_categorized_github_emoji_ids(json_text: &str, chart_html: &str) -> (r: Result<
    Categorized,
    EmojiError,
>)
    ensures
        r matches Err(EmojiError::MalformedSource) <==> json_string_map_of(json_text@) is None,
        r matches Err(EmojiError::BadImageUrl(id)) ==> {
            &&& json_string_map_of(json_text@) is Some
            &&& exists|i: int|
                {
                    &&& 0 <= i < json_string_map_of(json_text@).unwrap().len()
                    &&& entry_bad(#[trigger] json_string_map_of(json_text@).unwrap()[i])
                    &&& json_string_map_of(json_text@).unwrap()[i].0 == id@
                }
        },
        r matches Err(EmojiError::MalformedChart) <==> {
            &&& json_string_map_of(json_text@) is Some
            &&& (forall|i: int|
                0 <= i < json_string_map_of(json_text@).unwrap().len() ==> !entry_bad(
                    #[trigger] json_string_map_of(json_text@).unwrap()[i],
                ))
            &&& chart_error(events_of(chart_nodes(chart_html@)))
        },
        r matches Ok(c) ==> {
            &&& json_string_map_of(json_text@) is Some
            &&& (forall|i: int|
                0 <= i < json_string_map_of(json_text@).unwrap().len() ==> !entry_bad(
                    #[trigger] json_string_map_of(json_text@).unwrap()[i],
                ))
            &&& !chart_error(events_of(chart_nodes(chart_html@)))
            &&& exists|es: Seq<(Seq<char>, LitView)>|
                #[trigger] classified_matches(json_string_map_of(json_text@).unwrap(), es)
                    && c@ == attach_custom(
                    run(events_of(chart_nodes(chart_html@)), key_index(es)).cats,
                    custom_index(es),
                )
        },
{
    let entries: Vec<(String, EmojiLiteral)> = match source::get_github_emoji_id_map(json_text) {
        Ok(entries) => entries,
        Err(e) => {
            return Err(e);
        },
    };
    let events = chart::parse_chart_events(chart_html);
    let result = categorize::categorize_github_emoji_ids(&entries, &events);
    proof {
        let es = entries.deep_view();
        assert(classified_matches(json_string_map_of(json_text@).unwrap(), es));
    }
    result
}

} // verus!
