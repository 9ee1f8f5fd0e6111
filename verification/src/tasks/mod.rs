//! Task management: the projects a fresh installation starts with.

use vstd::prelude::*;

verus! {

/// The default projects, name and description.
pub open spec fn default_project_list() -> Seq<(Seq<char>, Seq<char>)> {
    seq![
        ("Cortex"@, "Sistema de memoria y cognitive"@),
        ("ZeroClaw"@, "Runtime Rust para agentes"@),
        ("Trading Bot"@, "Automatizacion de trading"@),
        ("ManteniApp"@, "SaaS mantenimiento industrial"@),
        ("Research"@, "Investigacion y experimentos"@),
        ("Ops"@, "Infraestructura y DevOps"@),
    ]
}

/// The default projects (see `default_project_list`).
pub fn default_projects() -> (r: Vec<(&'static str, &'static str)>)
    ensures
        r@.map_values(|p: (&'static str, &'static str)| (p.0@, p.1@)) == default_project_list(),
{
    let mut r: Vec<(&'static str, &'static str)> = Vec::new();
    r.push(("Cortex", "Sistema de memoria y cognitive"));
    r.push(("ZeroClaw", "Runtime Rust para agentes"));
    r.push(("Trading Bot", "Automatizacion de trading"));
    r.push(("ManteniApp", "SaaS mantenimiento industrial"));
    r.push(("Research", "Investigacion y experimentos"));
    r.push(("Ops", "Infraestructura y DevOps"));
    assert(r@.map_values(|p: (&'static str, &'static str)| (p.0@, p.1@)) =~= default_project_list());
    r
}

} // verus!
