//! The tool surface: the catalog of tools the server exposes, the routing
//! of tool names onto methods and paths, and the decision logic of the
//! line-oriented remote-procedure adapter.

use vstd::prelude::*;

verus! {

/// A tool with its description.
pub struct ToolDescriptor {
    pub name: &'static str,
    pub description: &'static str,
}

/// The catalog of tools, in a fixed order: every name is pinned (and
/// the pinned names are pairwise distinct).
#[verifier::rlimit(100)]
#[verifier::spinoff_prover]
pub fn list_tools() -> (r: Vec<ToolDescriptor>)
    ensures
        r@.len() == 32,
        r@[0].name@ == "memory.add"@,
        r@[1].name@ == "memory.search"@,
        r@[2].name@ == "memory.update"@,
        r@[3].name@ == "memory.delete"@,
        r@[4].name@ == "document.store"@,
        r@[5].name@ == "document.retrieve"@,
        r@[6].name@ == "document.analyze"@,
        r@[7].name@ == "document.refs_for_memory"@,
        r@[8].name@ == "document.refs_for_document"@,
        r@[9].name@ == "document.validate_refs"@,
        r@[10].name@ == "kg.list_entities"@,
        r@[11].name@ == "kg.get_entity"@,
        r@[12].name@ == "kg.create_entity"@,
        r@[13].name@ == "kg.create_relation"@,
        r@[14].name@ == "kg.search_nodes"@,
        r@[15].name@ == "kg.read_graph"@,
        r@[16].name@ == "kg.tag_entity"@,
        r@[17].name@ == "kg.get_tags"@,
        r@[18].name@ == "kg.remove_tag"@,
        r@[19].name@ == "kg.delete_entity"@,
        r@[20].name@ == "kg.delete_relation"@,
        r@[21].name@ == "system.status"@,
        r@[22].name@ == "system.cleanup"@,
        r@[23].name@ == "system.backup"@,
        r@[24].name@ == "system.restore"@,
        r@[25].name@ == "advanced.consolidate"@,
        r@[26].name@ == "advanced.analyze_patterns"@,
        r@[27].name@ == "advanced.reindex"@,
        r@[28].name@ == "advanced.trends"@,
        r@[29].name@ == "advanced.clusters"@,
        r@[30].name@ == "advanced.relationships"@,
        r@[31].name@ == "advanced.effectiveness"@,
{
    let mut v: Vec<ToolDescriptor> = Vec::new();
    v.push(ToolDescriptor { name: "memory.add", description: "Add a memory entry" });
    v.push(ToolDescriptor { name: "memory.search", description: "Hybrid search across indices" });
    v.push(ToolDescriptor { name: "memory.update", description: "Update a memory entry" });
    v.push(ToolDescriptor { name: "memory.delete", description: "Delete a memory entry" });
    v.push(ToolDescriptor { name: "document.store", description: "Ingest a document" });
    v.push(ToolDescriptor { name: "document.retrieve", description: "Retrieve a document" });
    v.push(ToolDescriptor { name: "document.analyze", description: "Analyze a document" });
    v.push(
        ToolDescriptor {
            name: "document.refs_for_memory",
            description: "List document references for a memory",
        },
    );
    v.push(
        ToolDescriptor {
            name: "document.refs_for_document",
            description: "List memories referencing a document",
        },
    );
    v.push(
        ToolDescriptor {
            name: "document.validate_refs",
            description: "Validate and fix documentary references",
        },
    );
    v.push(
        ToolDescriptor { name: "kg.list_entities", description: "List top entities by mention count" },
    );
    v.push(
        ToolDescriptor {
            name: "kg.get_entity",
            description: "Get detailed information about an entity",
        },
    );
    v.push(
        ToolDescriptor { name: "kg.create_entity", description: "Create or ensure an entity node exists" },
    );
    v.push(
        ToolDescriptor { name: "kg.create_relation", description: "Create a relation between two nodes" },
    );
    v.push(ToolDescriptor { name: "kg.search_nodes", description: "Search nodes by type and pattern" });
    v.push(
        ToolDescriptor { name: "kg.read_graph", description: "Get graph snapshot with configurable limit" },
    );
    v.push(ToolDescriptor { name: "kg.tag_entity", description: "Add tags to an entity" });
    v.push(ToolDescriptor { name: "kg.get_tags", description: "Get all tags or entities by tag" });
    v.push(ToolDescriptor { name: "kg.remove_tag", description: "Remove tags from an entity" });
    v.push(ToolDescriptor { name: "kg.delete_entity", description: "Delete an entity and its edges" });
    v.push(ToolDescriptor { name: "kg.delete_relation", description: "Delete a specific relation" });
    v.push(ToolDescriptor { name: "system.status", description: "Get system status" });
    v.push(ToolDescriptor { name: "system.cleanup", description: "Run cleanup tasks" });
    v.push(ToolDescriptor { name: "system.backup", description: "Create a backup" });
    v.push(ToolDescriptor { name: "system.restore", description: "Restore from backup" });
    v.push(ToolDescriptor { name: "advanced.consolidate", description: "Promote short-term memories" });
    v.push(
        ToolDescriptor { name: "advanced.analyze_patterns", description: "Analyze memory patterns" },
    );
    v.push(ToolDescriptor { name: "advanced.reindex", description: "Rebuild indices" });
    v.push(
        ToolDescriptor { name: "advanced.trends", description: "Temporal trends across memory layers" },
    );
    v.push(
        ToolDescriptor {
            name: "advanced.clusters",
            description: "Cross-document clusters via related edges",
        },
    );
    v.push(
        ToolDescriptor {
            name: "advanced.relationships",
            description: "Relationship strength analysis in the graph",
        },
    );
    v.push(
        ToolDescriptor { name: "advanced.effectiveness", description: "Memory effectiveness scoring" },
    );
    proof {
        reveal_strlit("memory.add");
        reveal_strlit("memory.search");
        reveal_strlit("memory.update");
        reveal_strlit("memory.delete");
        reveal_strlit("document.store");
        reveal_strlit("document.retrieve");
        reveal_strlit("document.analyze");
        reveal_strlit("document.refs_for_memory");
        reveal_strlit("document.refs_for_document");
        reveal_strlit("document.validate_refs");
        reveal_strlit("kg.list_entities");
        reveal_strlit("kg.get_entity");
        reveal_strlit("kg.create_entity");
        reveal_strlit("kg.create_relation");
        reveal_strlit("kg.search_nodes");
        reveal_strlit("kg.read_graph");
        reveal_strlit("kg.tag_entity");
        reveal_strlit("kg.get_tags");
        reveal_strlit("kg.remove_tag");
        reveal_strlit("kg.delete_entity");
        reveal_strlit("kg.delete_relation");
        reveal_strlit("system.status");
        reveal_strlit("system.cleanup");
        reveal_strlit("system.backup");
        reveal_strlit("system.restore");
        reveal_strlit("advanced.consolidate");
        reveal_strlit("advanced.analyze_patterns");
        reveal_strlit("advanced.reindex");
        reveal_strlit("advanced.trends");
        reveal_strlit("advanced.clusters");
        reveal_strlit("advanced.relationships");
        reveal_strlit("advanced.effectiveness");
    }
    v
}

/// A reusable byte-buffer pool seeded with a default capacity.
pub struct ByteBufPool {
    pub default_capacity: usize,
}

impl ByteBufPool {
    /// A pool whose buffers start at the given capacity.
    pub fn new(default_capacity: usize) -> (r: ByteBufPool)
        ensures
            r.default_capacity == default_capacity,
    {
        ByteBufPool { default_capacity }
    }
}

} // verus!
