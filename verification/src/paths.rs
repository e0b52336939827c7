//! Path assembly for the state-bouncer tool: given the game's user
//! directory and a mod id, the four locations it reads from and writes to.
//! Locating the user directory and the mod id is the caller's business; the
//! assembly itself is plain text and is specified exactly.

use vstd::prelude::*;

verus! {

/// The resolved locations: sources under the game's user directory, and
/// destinations under the mod's directory.
pub struct Paths {
    pub mod_id: String,
    pub hoi4: String,
    pub state_src: String,
    pub state_dest: String,
    pub loc_src: String,
    pub loc_dest: String,
}

fn get_state_src(hoi4: &str) -> (r: String)
    ensures
        r@ == hoi4@ + "/history/states"@,
{
    let mut path = hoi4.to_owned();
    path.append("/history/states");
    path
}

fn get_state_dest(hoi4: &str, mod_id: &str) -> (r: String)
    ensures
        r@ == hoi4@ + "/mod/"@ + mod_id@ + "/history/states"@,
{
    let mut path = hoi4.to_owned();
    path.append("/mod/");
    path.append(mod_id);
    path.append("/history/states");
    path
}

fn get_loc_src(hoi4: &str) -> (r: String)
    ensures
        r@ == hoi4@ + "/localisation/state_names_l_english.yml"@,
{
    let mut path = hoi4.to_owned();
    path.append("/localisation/state_names_l_english.yml");
    path
}

fn get_loc_dest(hoi4: &str, mod_id: &str) -> (r: String)
    ensures
        r@ == hoi4@ + "/mod/"@ + mod_id@ + "/localisation/state_names_l_english.yml"@,
{
    let mut path = hoi4.to_owned();
    path.append("/mod/");
    path.append(mod_id);
    path.append("/localisation/state_names_l_english.yml");
    path
}

impl Paths {
    /// Assembles every location from the game's user directory and the mod
    /// id.
    pub fn resolve(hoi4: String, mod_id: String) -> (p: Paths)
        ensures
            p.mod_id@ == mod_id@,
            p.hoi4@ == hoi4@,
            p.state_src@ == hoi4@ + "/history/states"@,
            p.state_dest@ == hoi4@ + "/mod/"@ + mod_id@ + "/history/states"@,
            p.loc_src@ == hoi4@ + "/localisation/state_names_l_english.yml"@,
            p.loc_dest@ == hoi4@ + "/mod/"@ + mod_id@
                + "/localisation/state_names_l_english.yml"@,
    {
        let state_src = get_state_src(hoi4.as_str());
        let state_dest = get_state_dest(hoi4.as_str(), mod_id.as_str());
        let loc_src = get_loc_src(hoi4.as_str());
        let loc_dest = get_loc_dest(hoi4.as_str(), mod_id.as_str());
        Paths { mod_id, hoi4, state_src, state_dest, loc_src, loc_dest }
    }
}

} // verus!
