//! Business vocabularies: the labels a report uses under each template.
use vstd::prelude::*;
use crate::types::BusinessTemplate;
use crate::text::chars_of;

verus! {

/// Label overrides for a template, as (label, alias) pairs.
pub open spec fn alias_table(t: BusinessTemplate) -> Seq<(Seq<char>, Seq<char>)> {
    match t {
        BusinessTemplate::Finance => seq![
            ("sum"@, "Volumen Total"@),
            ("Avg"@, "Ticket Promedio"@),
            ("count"@, "N° Operaciones"@),
            ("std_dev"@, "Volatilidad/Riesgo"@),
            ("Min"@, "Mínimo (H/L)"@),
            ("Max"@, "Máximo (H/L)"@),
            ("Unique"@, "Entidades Únicas"@),
        ],
        BusinessTemplate::Network => seq![
            ("sum"@, "Bytes Totales / Tráfico"@),
            ("count"@, "N° Paquetes / Eventos"@),
            ("Avg"@, "Tamaño Promedio"@),
            ("Unique"@, "Hosts Únicos"@),
        ],
        BusinessTemplate::Cybersecurity => seq![
            ("count"@, "Alertas / Logs"@),
            ("Unique"@, "IPs Atacantes"@),
            ("sum"@, "Payload Total"@),
        ],
        BusinessTemplate::Sales => seq![
            ("sum"@, "Ingresos Totales"@),
            ("Avg"@, "Venta Promedio"@),
            ("count"@, "N° Ventas"@),
        ],
        BusinessTemplate::General => Seq::empty(),
    }
}

pub open spec fn pairs_view(v: Seq<(String, String)>) -> Seq<(Seq<char>, Seq<char>)> {
    v.map_values(|p: (String, String)| (p.0@, p.1@))
}

/// Alias of `label` in `table`: the first pair with that label, else the label itself.
pub open spec fn lookup(table: Seq<(Seq<char>, Seq<char>)>, label: Seq<char>) -> Seq<char>
    decreases table.len(),
{
    if table.len() == 0 {
        label
    } else if table[0].0 == label {
        table[0].1
    } else {
        lookup(table.drop_first(), label)
    }
}

fn pair(k: &str, v: &str) -> (r: (String, String))
    ensures
        r.0@ == k@,
        r.1@ == v@,
{
    (k.to_owned(), v.to_owned())
}

fn same_text(a: &str, b: &str) -> (r: bool)
    ensures
        r == (a@ == b@),
{
    let x = chars_of(a);
    let y = chars_of(b);
    if x.len() != y.len() {
        return false;
    }
    let mut i: usize = 0;
    while i < x.len()
        invariant
            x@ == a@,
            y@ == b@,
            x@.len() == y@.len(),
            i <= x@.len(),
            forall|k: int| 0 <= k < i ==> x@[k] == y@[k],
        decreases x.len() - i,
    {
        if x[i] != y[i] {
            return false;
        }
        i = i + 1;
    }
    proof {
        assert(x@ =~= y@);
    }
    true
}

/// Translates statistic labels into a business vocabulary.
pub struct AliasManager;

impl AliasManager {
    /// The label overrides of a template, in a fixed order.
    pub fn get_aliases(template: BusinessTemplate) -> (r: Vec<(String, String)>)
        ensures
            pairs_view(r@) == alias_table(template),
    {
        let mut m: Vec<(String, String)> = Vec::new();
        match template {
            BusinessTemplate::Finance => {
                m.push(pair("sum", "Volumen Total"));
                m.push(pair("Avg", "Ticket Promedio"));
                m.push(pair("count", "N° Operaciones"));
                m.push(pair("std_dev", "Volatilidad/Riesgo"));
                m.push(pair("Min", "Mínimo (H/L)"));
                m.push(pair("Max", "Máximo (H/L)"));
                m.push(pair("Unique", "Entidades Únicas"));
            },
            BusinessTemplate::Network => {
                m.push(pair("sum", "Bytes Totales / Tráfico"));
                m.push(pair("count", "N° Paquetes / Eventos"));
                m.push(pair("Avg", "Tamaño Promedio"));
                m.push(pair("Unique", "Hosts Únicos"));
            },
            BusinessTemplate::Cybersecurity => {
                m.push(pair("count", "Alertas / Logs"));
                m.push(pair("Unique", "IPs Atacantes"));
                m.push(pair("sum", "Payload Total"));
            },
            BusinessTemplate::Sales => {
                m.push(pair("sum", "Ingresos Totales"));
                m.push(pair("Avg", "Venta Promedio"));
                m.push(pair("count", "N° Ventas"));
            },
            BusinessTemplate::General => {},
        }
        proof {
            assert(pairs_view(m@) =~= alias_table(template));
        }
        m
    }

    /// The alias of `label`, or `label` itself when it has none.
    pub fn translate(label: &str, aliases: &[(String, String)]) -> (r: String)
        ensures
            r@ == lookup(pairs_view(aliases@), label@),
    {
        let mut i: usize = 0;
        proof {
            assert(pairs_view(aliases@).subrange(0, aliases@.len() as int) =~= pairs_view(aliases@));
        }
        while i < aliases.len()
            invariant
                i <= aliases@.len(),
                lookup(pairs_view(aliases@), label@) == lookup(
                    pairs_view(aliases@).subrange(i as int, aliases@.len() as int),
                    label@,
                ),
            decreases aliases.len() - i,
        {
            let ghost rest = pairs_view(aliases@).subrange(i as int, aliases@.len() as int);
            if same_text(aliases[i].0.as_str(), label) {
                return aliases[i].1.clone();
            }
            proof {
                assert(rest.drop_first() =~= pairs_view(aliases@).subrange(i + 1, aliases@.len() as int));
            }
            i = i + 1;
        }
        label.to_owned()
    }
}

} // verus!
